//! Reading `make_struct!` and `make_enum!` definitions from their tokens.

use vstd::prelude::*;
use crate::syntax::{chars_equal, type_keyword_chars, type_keyword_of, TypeKeyword};
use crate::layout::{BinOp, BlockRow, Expr, FieldType, IntType};
use crate::validate::{entries_check, validate_entries};

verus! {

/// The delimiter of a token group.
#[derive(Clone, Copy, Debug, PartialEq, Eq, Structural)]
pub enum Delim {
    Paren,
    Bracket,
    Brace,
    /// A group without visible delimiters.
    Invisible,
}

/// A token of a macro's input, with delimited groups nested in it.
#[derive(Debug)]
pub enum Token {
    /// An identifier or a keyword, by its characters.
    Ident(Vec<char>),
    /// A punctuation character; `true` when the next character is
    /// punctuation too with no space between (as in `==`).
    Punct(char, bool),
    /// A literal, by its characters as written.
    Lit(Vec<char>),
    Group(Delim, Vec<Token>),
}

/// The value of a digit in base `radix` (2, 8, 10 or 16).
pub open spec fn digit_of(c: char, radix: u8) -> Option<int> {
    if '0' <= c <= '9' && (c as int - '0' as int) < (radix as int) {
        Some(c as int - '0' as int)
    } else if radix == 16 && 'a' <= c <= 'f' {
        Some(c as int - 'a' as int + 10)
    } else if radix == 16 && 'A' <= c <= 'F' {
        Some(c as int - 'A' as int + 10)
    } else {
        None
    }
}

pub open spec fn base_of(radix: u8) -> int {
    radix as int
}

pub open spec fn is_digit_char(c: char, radix: u8) -> bool {
    digit_of(c, radix) is Some || c == '_'
}

/// The value spelled by digits and underscores (which are skipped).
pub open spec fn digits_value(s: Seq<char>, radix: u8) -> int
    decreases s.len(),
{
    if s.len() == 0 {
        0
    } else if s.last() == '_' {
        digits_value(s.drop_last(), radix)
    } else {
        digits_value(s.drop_last(), radix) * base_of(radix) + digit_of(s.last(), radix)->0
    }
}

/// The first position at or after `i` that holds neither a digit nor `_`.
pub open spec fn digits_end(s: Seq<char>, i: int, radix: u8) -> int
    decreases s.len() - i,
{
    if i < 0 || i >= s.len() {
        i
    } else if is_digit_char(s[i], radix) {
        digits_end(s, i + 1, radix)
    } else {
        i
    }
}

/// An integer literal's type suffix, or none.
pub open spec fn is_int_suffix(t: Seq<char>) -> bool {
    ||| t.len() == 0
    ||| t == seq!['u', '8']
    ||| t == seq!['u', '1', '6']
    ||| t == seq!['u', '3', '2']
    ||| t == seq!['u', '6', '4']
    ||| t == seq!['u', '1', '2', '8']
    ||| t == seq!['u', 's', 'i', 'z', 'e']
    ||| t == seq!['i', '8']
    ||| t == seq!['i', '1', '6']
    ||| t == seq!['i', '3', '2']
    ||| t == seq!['i', '6', '4']
    ||| t == seq!['i', '1', '2', '8']
    ||| t == seq!['i', 's', 'i', 'z', 'e']
}

/// The base that a literal's prefix gives: `0x` 16, `0o` 8, `0b` 2, none 10.
pub open spec fn radix_of(s: Seq<char>) -> u8 {
    if s.len() >= 2 && s[0] == '0' && s[1] == 'x' {
        16
    } else if s.len() >= 2 && s[0] == '0' && s[1] == 'o' {
        8
    } else if s.len() >= 2 && s[0] == '0' && s[1] == 'b' {
        2
    } else {
        10
    }
}

/// The value of an integer literal: decimal digits, or `0x`, `0o` or `0b`
/// and digits of that base, with `_` between them and an optional type
/// suffix.
pub open spec fn lit_value(s: Seq<char>) -> Option<int> {
    let radix = radix_of(s);
    let start: int = if radix != 10 {
        2
    } else {
        0
    };
    let e = digits_end(s, start, radix);
    if e > start && s[start] != '_' && is_int_suffix(s.subrange(e, s.len() as int)) {
        Some(digits_value(s.subrange(start, e), radix))
    } else {
        None
    }
}

/// `lit_value`, when it fits an `i128`.
pub open spec fn lit_i128(s: Seq<char>) -> Option<i128> {
    match lit_value(s) {
        Some(v) => if v <= i128::MAX {
            Some(v as i128)
        } else {
            None
        },
        None => None,
    }
}

pub proof fn lemma_digits_end_bounds(s: Seq<char>, i: int, radix: u8)
    requires
        0 <= i <= s.len(),
    ensures
        i <= digits_end(s, i, radix) <= s.len(),
        forall|k: int| i <= k < digits_end(s, i, radix) ==> is_digit_char(#[trigger] s[k], radix),
        digits_end(s, i, radix) < s.len() ==> !is_digit_char(s[digits_end(s, i, radix)], radix),
    decreases s.len() - i,
{
    if i < s.len() && is_digit_char(s[i], radix) {
        lemma_digits_end_bounds(s, i + 1, radix);
    }
}

proof fn lemma_digits_value_grows(s: Seq<char>, k: int, radix: u8)
    requires
        1 <= radix,
        0 <= k <= s.len(),
        forall|j: int| 0 <= j < s.len() ==> is_digit_char(#[trigger] s[j], radix),
    ensures
        0 <= digits_value(s.take(k), radix) <= digits_value(s, radix),
    decreases s.len() - k,
{
    lemma_digits_value_nonneg(s.take(k), radix);
    if k < s.len() {
        lemma_digits_value_grows(s, k + 1, radix);
        assert(s.take(k + 1).drop_last() =~= s.take(k));
        assert(s.take(k + 1).last() == s[k]);
        assert(is_digit_char(s[k], radix));
        let v = digits_value(s.take(k), radix);
        assert(v <= v * base_of(radix)) by (nonlinear_arith)
            requires
                v >= 0,
                base_of(radix) >= 1,
        ;
    } else {
        assert(s.take(k) =~= s);
    }
}

proof fn lemma_digits_value_nonneg(s: Seq<char>, radix: u8)
    requires
        forall|j: int| 0 <= j < s.len() ==> is_digit_char(#[trigger] s[j], radix),
    ensures
        0 <= digits_value(s, radix),
    decreases s.len(),
{
    if s.len() > 0 {
        assert(is_digit_char(s[s.len() - 1], radix));
        lemma_digits_value_nonneg(s.drop_last(), radix);
    }
}

/// Whether `s[from..]` is exactly `lit`.
fn tail_equals(s: &Vec<char>, from: usize, lit: &[char]) -> (res: bool)
    requires
        from <= s@.len(),
    ensures
        res == (s@.subrange(from as int, s@.len() as int) == lit@),
{
    if s.len() - from != lit.len() {
        return false;
    }
    let mut i: usize = 0;
    let n = s.len();
    while i < lit.len()
        invariant
            n == s@.len(),
            from <= s@.len(),
            from + lit@.len() == s@.len(),
            i <= lit@.len(),
            forall|k: int| 0 <= k < i ==> s@[from + k] == lit@[k],
        decreases lit@.len() - i,
    {
        if s[from + i] != lit[i] {
            return false;
        }
        i = i + 1;
    }
    proof {
        assert(s@.subrange(from as int, s@.len() as int) =~= lit@);
    }
    true
}

fn suffix_ok(s: &Vec<char>, from: usize) -> (res: bool)
    requires
        from <= s@.len(),
    ensures
        res == is_int_suffix(s@.subrange(from as int, s@.len() as int)),
{
    from == s.len() || tail_equals(s, from, &['u', '8']) || tail_equals(s, from, &['u', '1', '6'])
        || tail_equals(s, from, &['u', '3', '2']) || tail_equals(s, from, &['u', '6', '4'])
        || tail_equals(s, from, &['u', '1', '2', '8']) || tail_equals(s, from, &['u', 's', 'i', 'z', 'e'])
        || tail_equals(s, from, &['i', '8']) || tail_equals(s, from, &['i', '1', '6'])
        || tail_equals(s, from, &['i', '3', '2']) || tail_equals(s, from, &['i', '6', '4'])
        || tail_equals(s, from, &['i', '1', '2', '8']) || tail_equals(s, from, &['i', 's', 'i', 'z', 'e'])
}

fn digit_value(c: char, radix: u8) -> (res: Option<u128>)
    requires
        radix <= 16,
    ensures
        res is Some == (digit_of(c, radix) is Some),
        res is Some ==> res->0 as int == digit_of(c, radix)->0 && res->0 < 16,
{
    if '0' <= c && c <= '9' && ((c as u32 - '0' as u32) as u8) < radix {
        Some((c as u32 - '0' as u32) as u128)
    } else if radix == 16 && 'a' <= c && c <= 'f' {
        Some((c as u32 - 'a' as u32 + 10) as u128)
    } else if radix == 16 && 'A' <= c && c <= 'F' {
        Some((c as u32 - 'A' as u32 + 10) as u128)
    } else {
        None
    }
}

/// The value of an integer literal's characters, when it fits an `i128`;
/// see `lit_value`.
pub fn literal_int(s: &Vec<char>) -> (res: Option<i128>)
    ensures
        res == lit_i128(s@),
{
    let radix: u8 = if s.len() >= 2 && s[0] == '0' && s[1] == 'x' {
        16
    } else if s.len() >= 2 && s[0] == '0' && s[1] == 'o' {
        8
    } else if s.len() >= 2 && s[0] == '0' && s[1] == 'b' {
        2
    } else {
        10
    };
    let start: usize = if radix != 10 {
        2
    } else {
        0
    };
    let mut e = start;
    while e < s.len()
        invariant
            2 <= radix <= 16,
            start <= e <= s@.len(),
            forall|k: int| start <= k < e ==> is_digit_char(#[trigger] s@[k], radix),
        ensures
            start <= e <= s@.len(),
            forall|k: int| start <= k < e ==> is_digit_char(#[trigger] s@[k], radix),
            e < s@.len() ==> !is_digit_char(s@[e as int], radix),
        decreases s@.len() - e,
    {
        let c = s[e];
        if c != '_' && digit_value(c, radix).is_none() {
            break;
        }
        e = e + 1;
    }
    proof {
        lemma_digits_end_bounds(s@, start as int, radix);
        if e < digits_end(s@, start as int, radix) {
            assert(is_digit_char(s@[e as int], radix));
        }
        if e > digits_end(s@, start as int, radix) {
            let d = digits_end(s@, start as int, radix);
            assert(is_digit_char(s@[d], radix));
        }
        assert(e == digits_end(s@, start as int, radix));
    }
    if e == start || s[start] == '_' || !suffix_ok(s, e) {
        return None;
    }
    let ghost body = s@.subrange(start as int, e as int);
    proof {
        assert(lit_value(s@) == Some(digits_value(body, radix)));
    }
    let base: u128 = radix as u128;
    let mut acc: u128 = 0;
    let mut i = start;
    while i < e
        invariant
            start <= i <= e <= s@.len(),
            body == s@.subrange(start as int, e as int),
            forall|k: int| 0 <= k < body.len() ==> is_digit_char(#[trigger] body[k], radix),
            base as int == base_of(radix),
            2 <= radix <= 16,
            acc as int == digits_value(body.take(i - start), radix),
            acc <= i128::MAX,
            lit_value(s@) == Some(digits_value(body, radix)),
        decreases e - i,
    {
        let c = s[i];
        proof {
            assert(body[i - start] == c);
            assert(body.take(i - start + 1).drop_last() =~= body.take(i - start));
            assert(body.take(i - start + 1).last() == c);
        }
        if c != '_' {
            let d = digit_value(c, radix).unwrap();
            let lim: u128 = (i128::MAX as u128 - d) / base;
            if acc > lim {
                proof {
                    assert(acc * base + d > i128::MAX) by (nonlinear_arith)
                        requires
                            lim as int == (0x7fff_ffff_ffff_ffff_ffff_ffff_ffff_ffff - d as int) / (base as int),
                            acc > lim,
                            base > 0,
                            d < 16,
                    ;
                    lemma_digits_value_grows(body, i - start + 1, radix);
                    assert(digits_value(body.take(i - start + 1), radix) == digits_value(body.take(i - start), radix) * base_of(radix) + digit_of(c, radix)->0);
                }
                return None;
            }
            proof {
                assert(acc * base + d <= i128::MAX) by (nonlinear_arith)
                    requires
                        lim as int == (0x7fff_ffff_ffff_ffff_ffff_ffff_ffff_ffff - d as int) / (base as int),
                        acc <= lim,
                        base > 0,
                        d < 16,
                ;
            }
            acc = acc * base + d;
            proof {
                assert(digits_value(body.take(i - start + 1), radix) == digits_value(body.take(i - start), radix) * base_of(radix) + digit_of(c, radix)->0);
            }
        } else {
            proof {
                assert(digits_value(body.take(i - start + 1), radix) == digits_value(body.take(i - start), radix));
            }
        }
        i = i + 1;
    }
    proof {
        assert(body.take(e - start) =~= body);
    }
    Some(acc as i128)
}


/// Why a definition could not be read.
#[derive(Clone, Copy, Debug, PartialEq, Eq, Structural)]
pub enum SyntaxError {
    /// Tokens that do not form an expression, or a `CStr` bound that names
    /// no earlier field.
    BadExpression,
    /// A literal that is not an integer in range.
    BadLiteral,
    /// A type outside the supported forms.
    BadType,
    /// A fixed-size array whose element type is not `u8`.
    SliceElementNotU8,
    /// A `Vec` whose element type is not `u8`.
    VecElementNotU8,
    /// Something other than a field, a `consume(..)`, an `if` block or an
    /// `exclude` block.
    BadItem,
    /// A malformed enumeration variant.
    BadVariant,
    /// The name or the braced body of the definition is missing, or tokens
    /// follow the body.
    BadHeader,
    /// The fields break the rule on byte vectors without a size.
    Layout(crate::validate::LayoutError),
}

pub open spec fn punct_at(toks: Seq<Token>, end: int, i: int, c: char) -> bool {
    0 <= i < end && i < toks.len() && (toks[i] matches Token::Punct(x, _) && x == c)
}

/// A punctuation character joined to the next one.
pub open spec fn joint_at(toks: Seq<Token>, end: int, i: int, c: char) -> bool {
    0 <= i < end && i < toks.len() && (toks[i] matches Token::Punct(x, j) && x == c && j)
}

/// A two-character operator such as `==` at `i`.
pub open spec fn op2_at(toks: Seq<Token>, end: int, i: int, a: char, b: char) -> bool {
    joint_at(toks, end, i, a) && punct_at(toks, end, i + 1, b)
}

pub open spec fn ident_at(toks: Seq<Token>, end: int, i: int, w: Seq<char>) -> bool {
    0 <= i < end && i < toks.len() && (toks[i] matches Token::Ident(s) && s@ == w)
}

pub open spec fn is_ident_at(toks: Seq<Token>, end: int, i: int) -> bool {
    0 <= i < end && i < toks.len() && toks[i] is Ident
}

/// `()` at `i`.
pub open spec fn empty_parens_at(toks: Seq<Token>, end: int, i: int) -> bool {
    0 <= i < end && i < toks.len() && (toks[i] matches Token::Group(d, g) && d == Delim::Paren && g@.len()
        == 0)
}

/// The names of the fields declared so far, by their characters.
pub open spec fn names_view(v: Seq<Vec<char>>) -> Seq<Seq<char>> {
    Seq::new(v.len(), |k: int| v[k]@)
}

/// The last of the first `n` names that is `w` (a later field shadows an
/// earlier one of the same name).
pub open spec fn find_last(names: Seq<Seq<char>>, w: Seq<char>, n: nat) -> Option<nat>
    decreases n,
{
    if n == 0 || n > names.len() {
        None
    } else if names[n - 1] == w {
        Some((n - 1) as nat)
    } else {
        find_last(names, w, (n - 1) as nat)
    }
}

/// A comparison operator at `i`, with its length in tokens.
pub open spec fn rel_op_at(toks: Seq<Token>, end: int, i: int) -> Option<(BinOp, int)> {
    if op2_at(toks, end, i, '=', '=') {
        Some((BinOp::Eq, 2))
    } else if op2_at(toks, end, i, '!', '=') {
        Some((BinOp::Ne, 2))
    } else if op2_at(toks, end, i, '<', '=') {
        Some((BinOp::Le, 2))
    } else if op2_at(toks, end, i, '>', '=') {
        Some((BinOp::Ge, 2))
    } else if punct_at(toks, end, i, '<') {
        Some((BinOp::Lt, 1))
    } else if punct_at(toks, end, i, '>') {
        Some((BinOp::Gt, 1))
    } else {
        None
    }
}

/// A name in an expression: `true`, `false`, `peek(bits)`, the tag of an
/// enumeration rule (`self`, `tag_value` or `v`, with `.len()` or
/// `.clone()`), an earlier field, or else code of the definition's own.
pub open spec fn ident_primary(
    toks: Seq<Token>,
    end: int,
    pos: int,
    s: Seq<char>,
    names: Seq<Seq<char>>,
    tag: bool,
) -> Result<(Expr, int), SyntaxError> {
    if s == seq!['t', 'r', 'u', 'e'] {
        Ok((Expr::Bool(true), pos + 1))
    } else if s == seq!['f', 'a', 'l', 's', 'e'] {
        Ok((Expr::Bool(false), pos + 1))
    } else if s == seq!['p', 'e', 'e', 'k'] && 0 <= pos + 1 < end && pos + 1 < toks.len() && toks[pos
        + 1] is Group {
        match toks[pos + 1] {
            Token::Group(d, args) => if d == Delim::Paren && args@.len() == 1 && args@[0] is Lit {
                match lit_i128(args@[0]->Lit_0@) {
                    Some(b) => if 0 <= b <= usize::MAX {
                        Ok((Expr::Peek(b as usize), pos + 2))
                    } else {
                        Err(SyntaxError::BadLiteral)
                    },
                    None => Err(SyntaxError::BadLiteral),
                }
            } else {
                Err(SyntaxError::BadExpression)
            },
            _ => Err(SyntaxError::BadExpression),
        }
    } else if tag && (s == seq!['s', 'e', 'l', 'f'] || s == seq!['t', 'a', 'g', '_', 'v', 'a', 'l', 'u', 'e']
        || s == seq!['v']) {
        if punct_at(toks, end, pos + 1, '.') && ident_at(toks, end, pos + 2, seq!['l', 'e', 'n'])
            && empty_parens_at(toks, end, pos + 3) {
            Ok((Expr::TagLen, pos + 4))
        } else if punct_at(toks, end, pos + 1, '.') && ident_at(
            toks,
            end,
            pos + 2,
            seq!['c', 'l', 'o', 'n', 'e'],
        ) && empty_parens_at(toks, end, pos + 3) {
            Ok((Expr::Tag, pos + 4))
        } else {
            Ok((Expr::Tag, pos + 1))
        }
    } else {
        match find_last(names, s, names.len()) {
            Some(k) => Ok((Expr::Field(k as usize), pos + 1)),
            None => user_code(toks, end, pos),
        }
    }
}

/// A name that is no field: a path, with the arguments of a call when
/// parentheses follow it, kept as code of the definition's own.
pub open spec fn user_code(toks: Seq<Token>, end: int, pos: int) -> Result<(Expr, int), SyntaxError> {
    let p = path_end(toks, end, pos);
    if is_group_at(toks, end, p, Delim::Paren) {
        Ok((Expr::Extern(pos as usize, (p + 1) as usize), p + 1))
    } else {
        Ok((Expr::Extern(pos as usize, p as usize), p))
    }
}

/// An operand: a literal, a parenthesized expression or a name.
pub open spec fn primary(toks: Seq<Token>, end: int, pos: int, names: Seq<Seq<char>>, tag: bool) -> Result<
    (Expr, int),
    SyntaxError,
>
    decreases toks, end - pos, 0int,
{
    if pos < 0 || pos >= end || end > toks.len() {
        Err(SyntaxError::BadExpression)
    } else {
        match toks[pos] {
            Token::Lit(s) => match lit_i128(s@) {
                Some(v) => Ok((Expr::Lit(v), pos + 1)),
                None => Err(SyntaxError::BadLiteral),
            },
            Token::Group(d, inner) => if d == Delim::Paren || d == Delim::Invisible {
                match or_expr(inner@, inner@.len() as int, 0, names, tag) {
                    Ok((e, p)) => if p == inner@.len() {
                        Ok((Expr::Paren(pos as usize, Box::new(e)), pos + 1))
                    } else {
                        Err(SyntaxError::BadExpression)
                    },
                    Err(x) => Err(x),
                }
            } else {
                Err(SyntaxError::BadExpression)
            },
            Token::Ident(s) => ident_primary(toks, end, pos, s@, names, tag),
            Token::Punct(_, _) => Err(SyntaxError::BadExpression),
        }
    }
}

/// `!x`, `-x` or an operand.
pub open spec fn unary(toks: Seq<Token>, end: int, pos: int, names: Seq<Seq<char>>, tag: bool) -> Result<
    (Expr, int),
    SyntaxError,
>
    decreases toks, end - pos, 1int,
{
    if punct_at(toks, end, pos, '!') {
        match unary(toks, end, pos + 1, names, tag) {
            Ok((e, p)) => Ok((Expr::Not(Box::new(e)), p)),
            Err(x) => Err(x),
        }
    } else if punct_at(toks, end, pos, '-') {
        match unary(toks, end, pos + 1, names, tag) {
            Ok((e, p)) => Ok((Expr::Bin(BinOp::Sub, Box::new(Expr::Lit(0)), Box::new(e)), p)),
            Err(x) => Err(x),
        }
    } else {
        primary(toks, end, pos, names, tag)
    }
}

/// The integer type that a name spells.
pub open spec fn int_type_of(s: Seq<char>) -> Option<IntType> {
    if s == seq!['u', '8'] {
        Some(IntType::U8)
    } else if s == seq!['u', '1', '6'] {
        Some(IntType::U16)
    } else if s == seq!['u', '3', '2'] {
        Some(IntType::U32)
    } else if s == seq!['u', '6', '4'] {
        Some(IntType::U64)
    } else if s == seq!['u', '1', '2', '8'] {
        Some(IntType::U128)
    } else if s == seq!['u', 's', 'i', 'z', 'e'] {
        Some(IntType::USize)
    } else if s == seq!['i', '8'] {
        Some(IntType::I8)
    } else if s == seq!['i', '1', '6'] {
        Some(IntType::I16)
    } else if s == seq!['i', '3', '2'] {
        Some(IntType::I32)
    } else if s == seq!['i', '6', '4'] {
        Some(IntType::I64)
    } else if s == seq!['i', '1', '2', '8'] {
        Some(IntType::I128)
    } else if s == seq!['i', 's', 'i', 'z', 'e'] {
        Some(IntType::ISize)
    } else {
        None
    }
}

/// `as T` casts after an operand, to integer types only.
pub open spec fn cast_rest(toks: Seq<Token>, end: int, lhs: Expr, pos: int) -> Result<(Expr, int), SyntaxError>
    decreases end - pos,
{
    if ident_at(toks, end, pos, seq!['a', 's']) && is_ident_at(toks, end, pos + 1) {
        match int_type_of(toks[pos + 1]->Ident_0@) {
            Some(t) => cast_rest(toks, end, Expr::Cast(t, Box::new(lhs)), pos + 2),
            None => Err(SyntaxError::BadExpression),
        }
    } else {
        Ok((lhs, pos))
    }
}

pub open spec fn cast_expr(toks: Seq<Token>, end: int, pos: int, names: Seq<Seq<char>>, tag: bool) -> Result<
    (Expr, int),
    SyntaxError,
>
    decreases toks, end - pos, 2int,
{
    match unary(toks, end, pos, names, tag) {
        Ok((e, p)) => cast_rest(toks, end, e, p),
        Err(x) => Err(x),
    }
}

/// The binary operator at `pos` of precedence level `lv`, with its length
/// in tokens. From the tightest: `*` `/` `%` (1), `+` `-` (2), `<<` `>>`
/// (3), `&` (4), `^` (5), `|` (6), the comparisons (7, see `rel_rest`),
/// `&&` (8) and `||` (9).
pub open spec fn level_op(toks: Seq<Token>, end: int, pos: int, lv: nat) -> Option<(BinOp, int)> {
    if lv == 1 {
        if punct_at(toks, end, pos, '*') {
            Some((BinOp::Mul, 1))
        } else if punct_at(toks, end, pos, '/') {
            Some((BinOp::Div, 1))
        } else if punct_at(toks, end, pos, '%') {
            Some((BinOp::Rem, 1))
        } else {
            None
        }
    } else if lv == 2 {
        if punct_at(toks, end, pos, '+') {
            Some((BinOp::Add, 1))
        } else if punct_at(toks, end, pos, '-') {
            Some((BinOp::Sub, 1))
        } else {
            None
        }
    } else if lv == 3 {
        if op2_at(toks, end, pos, '<', '<') {
            Some((BinOp::Shl, 2))
        } else if op2_at(toks, end, pos, '>', '>') {
            Some((BinOp::Shr, 2))
        } else {
            None
        }
    } else if lv == 4 {
        if punct_at(toks, end, pos, '&') && !op2_at(toks, end, pos, '&', '&') {
            Some((BinOp::BitAnd, 1))
        } else {
            None
        }
    } else if lv == 5 {
        if punct_at(toks, end, pos, '^') {
            Some((BinOp::BitXor, 1))
        } else {
            None
        }
    } else if lv == 6 {
        if punct_at(toks, end, pos, '|') && !op2_at(toks, end, pos, '|', '|') {
            Some((BinOp::BitOr, 1))
        } else {
            None
        }
    } else if lv == 8 {
        if op2_at(toks, end, pos, '&', '&') {
            Some((BinOp::And, 2))
        } else {
            None
        }
    } else if lv == 9 {
        if op2_at(toks, end, pos, '|', '|') {
            Some((BinOp::Or, 2))
        } else {
            None
        }
    } else {
        None
    }
}

/// The operators of level `lv` after the left operand `lhs`, which ends at
/// `pos`; they associate to the left, but comparisons do not chain.
pub open spec fn lv_rest(
    toks: Seq<Token>,
    end: int,
    lhs: Expr,
    pos: int,
    names: Seq<Seq<char>>,
    tag: bool,
    lv: nat,
) -> Result<(Expr, int), SyntaxError>
    decreases toks, end - pos, 2 * lv + 2,
{
    if lv == 7 {
        rel_rest(toks, end, lhs, pos, names, tag)
    } else if 1 <= lv <= 9 {
        match level_op(toks, end, pos, lv) {
            Some((op, n)) => if 0 <= pos && pos + n <= end {
                match lv_expr(toks, end, pos + n, names, tag, (lv - 1) as nat) {
                    Ok((r, p)) => if pos + n < p <= end {
                        lv_rest(toks, end, Expr::Bin(op, Box::new(lhs), Box::new(r)), p, names, tag, lv)
                    } else {
                        Err(SyntaxError::BadExpression)
                    },
                    Err(x) => Err(x),
                }
            } else {
                Err(SyntaxError::BadExpression)
            },
            None => Ok((lhs, pos)),
        }
    } else {
        Ok((lhs, pos))
    }
}

/// An expression at `pos` whose operators are of level `lv` or tighter;
/// level 0 is an operand with its casts.
pub open spec fn lv_expr(toks: Seq<Token>, end: int, pos: int, names: Seq<Seq<char>>, tag: bool, lv: nat) -> Result<
    (Expr, int),
    SyntaxError,
>
    decreases toks, end - pos, 2 * lv + 3,
{
    if lv == 0 || lv > 9 {
        cast_expr(toks, end, pos, names, tag)
    } else {
        match lv_expr(toks, end, pos, names, tag, (lv - 1) as nat) {
            Ok((e, p)) => if pos < p <= end {
                lv_rest(toks, end, e, p, names, tag, lv)
            } else {
                Err(SyntaxError::BadExpression)
            },
            Err(x) => Err(x),
        }
    }
}

/// At most one comparison: comparisons do not chain.
pub open spec fn rel_rest(
    toks: Seq<Token>,
    end: int,
    lhs: Expr,
    pos: int,
    names: Seq<Seq<char>>,
    tag: bool,
) -> Result<(Expr, int), SyntaxError>
    decreases toks, end - pos, 15int,
{
    match rel_op_at(toks, end, pos) {
        Some((op, n)) => if 0 <= pos && pos + n <= end {
            match lv_expr(toks, end, pos + n, names, tag, 6) {
                Ok((r, p)) => Ok((Expr::Bin(op, Box::new(lhs), Box::new(r)), p)),
                Err(x) => Err(x),
            }
        } else {
            Err(SyntaxError::BadExpression)
        },
        None => Ok((lhs, pos)),
    }
}

/// An expression at `pos`, ending before `end`: `||` binds loosest, then
/// `&&`, one comparison, `|`, `^`, `&`, the shifts, `+` and `-`, `*` `/`
/// `%`, casts, and the unary operators.
pub open spec fn or_expr(toks: Seq<Token>, end: int, pos: int, names: Seq<Seq<char>>, tag: bool) -> Result<
    (Expr, int),
    SyntaxError,
>
    decreases toks, end - pos, 22int,
{
    lv_expr(toks, end, pos, names, tag, 9)
}

/// The operators of levels `lv` to 9 after the left operand `lhs`, in turn.
pub open spec fn climb(
    toks: Seq<Token>,
    end: int,
    lhs: Expr,
    pos: int,
    names: Seq<Seq<char>>,
    tag: bool,
    lv: nat,
) -> Result<(Expr, int), SyntaxError>
    decreases 10 - lv,
{
    if lv >= 10 || lv == 0 {
        Ok((lhs, pos))
    } else {
        match lv_rest(toks, end, lhs, pos, names, tag, lv) {
            Ok((e, p)) => climb(toks, end, e, p, names, tag, lv + 1),
            Err(x) => Err(x),
        }
    }
}

/// The expression that the tokens `lo .. hi` spell, all of them.
pub open spec fn expr_in(toks: Seq<Token>, lo: int, hi: int, names: Seq<Seq<char>>, tag: bool) -> Result<
    Expr,
    SyntaxError,
> {
    match or_expr(toks, hi, lo, names, tag) {
        Ok((e, p)) => if p == hi {
            Ok(e)
        } else {
            Err(SyntaxError::BadExpression)
        },
        Err(x) => Err(x),
    }
}


pub open spec fn lift(r: Result<(Expr, usize), SyntaxError>) -> Result<(Expr, int), SyntaxError> {
    match r {
        Ok((e, p)) => Ok((e, p as int)),
        Err(x) => Err(x),
    }
}

fn punct_is(toks: &Vec<Token>, end: usize, i: usize, c: char) -> (res: bool)
    requires
        end <= toks@.len(),
    ensures
        res == punct_at(toks@, end as int, i as int, c),
{
    if i < end {
        match &toks[i] {
            Token::Punct(x, _) => *x == c,
            _ => false,
        }
    } else {
        false
    }
}

fn joint_is(toks: &Vec<Token>, end: usize, i: usize, c: char) -> (res: bool)
    requires
        end <= toks@.len(),
    ensures
        res == joint_at(toks@, end as int, i as int, c),
{
    if i < end {
        match &toks[i] {
            Token::Punct(x, j) => *x == c && *j,
            _ => false,
        }
    } else {
        false
    }
}

fn op2_is(toks: &Vec<Token>, end: usize, i: usize, a: char, b: char) -> (res: bool)
    requires
        end <= toks@.len(),
        i < usize::MAX,
    ensures
        res == op2_at(toks@, end as int, i as int, a, b),
{
    joint_is(toks, end, i, a) && punct_is(toks, end, i + 1, b)
}

fn ident_is(toks: &Vec<Token>, end: usize, i: usize, w: &[char]) -> (res: bool)
    requires
        end <= toks@.len(),
    ensures
        res == ident_at(toks@, end as int, i as int, w@),
{
    if i < end {
        match &toks[i] {
            Token::Ident(s) => chars_equal(s, w),
            _ => false,
        }
    } else {
        false
    }
}

fn any_ident_is(toks: &Vec<Token>, end: usize, i: usize) -> (res: bool)
    requires
        end <= toks@.len(),
    ensures
        res == is_ident_at(toks@, end as int, i as int),
{
    if i < end {
        match &toks[i] {
            Token::Ident(_) => true,
            _ => false,
        }
    } else {
        false
    }
}

fn empty_parens_is(toks: &Vec<Token>, end: usize, i: usize) -> (res: bool)
    requires
        end <= toks@.len(),
    ensures
        res == empty_parens_at(toks@, end as int, i as int),
{
    if i < end {
        match &toks[i] {
            Token::Group(d, g) => *d == Delim::Paren && g.len() == 0,
            _ => false,
        }
    } else {
        false
    }
}

/// The position of the last field named `w`; see `find_last`.
fn find_name(names: &Vec<Vec<char>>, w: &Vec<char>) -> (res: Option<usize>)
    ensures
        match find_last(names_view(names@), w@, names@.len()) {
            Some(k) => res == Some(k as usize) && k < names@.len(),
            None => res is None,
        },
{
    let ghost nv = names_view(names@);
    let mut n = names.len();
    while n > 0
        invariant
            n <= names@.len(),
            nv == names_view(names@),
            find_last(nv, w@, names@.len()) == find_last(nv, w@, n as nat),
        decreases n,
    {
        if chars_equal(&names[n - 1], w.as_slice()) {
            return Some(n - 1);
        }
        n = n - 1;
    }
    None
}

fn rel_op_is(toks: &Vec<Token>, end: usize, i: usize) -> (res: Option<(BinOp, usize)>)
    requires
        end <= toks@.len(),
        i < usize::MAX,
    ensures
        match rel_op_at(toks@, end as int, i as int) {
            Some((op, n)) => res == Some((op, n as usize)) && 1 <= n <= 2,
            None => res is None,
        },
{
    if op2_is(toks, end, i, '=', '=') {
        Some((BinOp::Eq, 2))
    } else if op2_is(toks, end, i, '!', '=') {
        Some((BinOp::Ne, 2))
    } else if op2_is(toks, end, i, '<', '=') {
        Some((BinOp::Le, 2))
    } else if op2_is(toks, end, i, '>', '=') {
        Some((BinOp::Ge, 2))
    } else if punct_is(toks, end, i, '<') {
        Some((BinOp::Lt, 1))
    } else if punct_is(toks, end, i, '>') {
        Some((BinOp::Gt, 1))
    } else {
        None
    }
}

fn ident_primary_exec(
    toks: &Vec<Token>,
    end: usize,
    pos: usize,
    s: &Vec<char>,
    names: &Vec<Vec<char>>,
    tag: bool,
) -> (res: Result<(Expr, usize), SyntaxError>)
    requires
        end <= toks@.len(),
        pos < end,
    ensures
        lift(res) == ident_primary(toks@, end as int, pos as int, s@, names_view(names@), tag),
        res is Ok ==> pos < res->Ok_0.1 <= end,
{
    if chars_equal(s, &['t', 'r', 'u', 'e']) {
        return Ok((Expr::Bool(true), pos + 1));
    }
    if chars_equal(s, &['f', 'a', 'l', 's', 'e']) {
        return Ok((Expr::Bool(false), pos + 1));
    }
    if chars_equal(s, &['p', 'e', 'e', 'k']) && end - pos > 1 {
        match &toks[pos + 1] {
            Token::Group(d, args) => {
                if *d == Delim::Paren && args.len() == 1 {
                    match &args[0] {
                        Token::Lit(n) => {
                            return match literal_int(n) {
                                Some(b) => if 0 <= b && b <= usize::MAX as i128 {
                                    Ok((Expr::Peek(b as usize), pos + 2))
                                } else {
                                    Err(SyntaxError::BadLiteral)
                                },
                                None => Err(SyntaxError::BadLiteral),
                            };
                        },
                        _ => {
                            return Err(SyntaxError::BadExpression);
                        },
                    }
                }
                return Err(SyntaxError::BadExpression);
            },
            _ => {},
        }
    }
    let is_self = chars_equal(s, &['s', 'e', 'l', 'f']);
    let is_tag_value = chars_equal(s, &['t', 'a', 'g', '_', 'v', 'a', 'l', 'u', 'e']);
    let is_v = s.len() == 1 && s[0] == 'v';
    proof {
        if is_v {
            assert(s@ =~= seq!['v']);
        }
    }
    let is_tag_name = is_self || is_tag_value || is_v;
    if tag && is_tag_name {
        let dot = end - pos > 3 && punct_is(toks, end, pos + 1, '.');
        if dot && ident_is(toks, end, pos + 2, &['l', 'e', 'n']) && empty_parens_is(toks, end, pos + 3) {
            return Ok((Expr::TagLen, pos + 4));
        }
        if dot && ident_is(toks, end, pos + 2, &['c', 'l', 'o', 'n', 'e']) && empty_parens_is(toks, end, pos + 3) {
            return Ok((Expr::Tag, pos + 4));
        }
        return Ok((Expr::Tag, pos + 1));
    }
    match find_name(names, s) {
        Some(k) => Ok((Expr::Field(k), pos + 1)),
        None => {
            let p = path_end_exec(toks, end, pos);
            if group_is(toks, end, p, Delim::Paren) {
                Ok((Expr::Extern(pos, p + 1), p + 1))
            } else {
                Ok((Expr::Extern(pos, p), p))
            }
        },
    }
}

fn primary_exec(toks: &Vec<Token>, end: usize, pos: usize, names: &Vec<Vec<char>>, tag: bool) -> (res: Result<
    (Expr, usize),
    SyntaxError,
>)
    requires
        end <= toks@.len(),
    ensures
        lift(res) == primary(toks@, end as int, pos as int, names_view(names@), tag),
        res is Ok ==> pos < res->Ok_0.1 <= end,
    decreases toks@, end - pos, 0int,
{
    if pos >= end {
        return Err(SyntaxError::BadExpression);
    }
    match &toks[pos] {
        Token::Lit(s) => match literal_int(s) {
            Some(v) => Ok((Expr::Lit(v), pos + 1)),
            None => Err(SyntaxError::BadLiteral),
        },
        Token::Group(d, inner) => {
            if *d == Delim::Paren || *d == Delim::Invisible {
                proof {
                    assert(decreases_to!(toks@ => inner@));
                }
                match or_expr_exec(inner, inner.len(), 0, names, tag) {
                    Ok((e, p)) => if p == inner.len() {
                        Ok((Expr::Paren(pos, Box::new(e)), pos + 1))
                    } else {
                        Err(SyntaxError::BadExpression)
                    },
                    Err(x) => Err(x),
                }
            } else {
                Err(SyntaxError::BadExpression)
            }
        },
        Token::Ident(s) => ident_primary_exec(toks, end, pos, s, names, tag),
        Token::Punct(_, _) => Err(SyntaxError::BadExpression),
    }
}

fn unary_exec(toks: &Vec<Token>, end: usize, pos: usize, names: &Vec<Vec<char>>, tag: bool) -> (res: Result<
    (Expr, usize),
    SyntaxError,
>)
    requires
        end <= toks@.len(),
    ensures
        lift(res) == unary(toks@, end as int, pos as int, names_view(names@), tag),
        res is Ok ==> pos < res->Ok_0.1 <= end,
    decreases toks@, end - pos, 1int,
{
    if punct_is(toks, end, pos, '!') {
        match unary_exec(toks, end, pos + 1, names, tag) {
            Ok((e, p)) => Ok((Expr::Not(Box::new(e)), p)),
            Err(x) => Err(x),
        }
    } else if punct_is(toks, end, pos, '-') {
        match unary_exec(toks, end, pos + 1, names, tag) {
            Ok((e, p)) => Ok((Expr::Bin(BinOp::Sub, Box::new(Expr::Lit(0)), Box::new(e)), p)),
            Err(x) => Err(x),
        }
    } else {
        primary_exec(toks, end, pos, names, tag)
    }
}

fn int_type_exec(w: &Vec<char>) -> (res: Option<IntType>)
    ensures
        res == int_type_of(w@),
{
    if chars_equal(w, &['u', '8']) {
        Some(IntType::U8)
    } else if chars_equal(w, &['u', '1', '6']) {
        Some(IntType::U16)
    } else if chars_equal(w, &['u', '3', '2']) {
        Some(IntType::U32)
    } else if chars_equal(w, &['u', '6', '4']) {
        Some(IntType::U64)
    } else if chars_equal(w, &['u', '1', '2', '8']) {
        Some(IntType::U128)
    } else if chars_equal(w, &['u', 's', 'i', 'z', 'e']) {
        Some(IntType::USize)
    } else if chars_equal(w, &['i', '8']) {
        Some(IntType::I8)
    } else if chars_equal(w, &['i', '1', '6']) {
        Some(IntType::I16)
    } else if chars_equal(w, &['i', '3', '2']) {
        Some(IntType::I32)
    } else if chars_equal(w, &['i', '6', '4']) {
        Some(IntType::I64)
    } else if chars_equal(w, &['i', '1', '2', '8']) {
        Some(IntType::I128)
    } else if chars_equal(w, &['i', 's', 'i', 'z', 'e']) {
        Some(IntType::ISize)
    } else {
        None
    }
}

fn cast_rest_exec(toks: &Vec<Token>, end: usize, lhs: Expr, pos: usize) -> (res: Result<(Expr, usize), SyntaxError>)
    requires
        end <= toks@.len(),
        pos <= end,
    ensures
        lift(res) == cast_rest(toks@, end as int, lhs, pos as int),
        res is Ok ==> pos <= res->Ok_0.1 <= end,
    decreases end - pos,
{
    if end - pos > 1 && ident_is(toks, end, pos, &['a', 's']) {
        match &toks[pos + 1] {
            Token::Ident(w) => match int_type_exec(w) {
                Some(t) => cast_rest_exec(toks, end, Expr::Cast(t, Box::new(lhs)), pos + 2),
                None => Err(SyntaxError::BadExpression),
            },
            _ => Ok((lhs, pos)),
        }
    } else {
        Ok((lhs, pos))
    }
}

fn cast_expr_exec(toks: &Vec<Token>, end: usize, pos: usize, names: &Vec<Vec<char>>, tag: bool) -> (res: Result<
    (Expr, usize),
    SyntaxError,
>)
    requires
        end <= toks@.len(),
    ensures
        lift(res) == cast_expr(toks@, end as int, pos as int, names_view(names@), tag),
        res is Ok ==> pos < res->Ok_0.1 <= end,
    decreases toks@, end - pos, 2int,
{
    match unary_exec(toks, end, pos, names, tag) {
        Ok((e, p)) => cast_rest_exec(toks, end, e, p),
        Err(x) => Err(x),
    }
}

fn level_op_is(toks: &Vec<Token>, end: usize, pos: usize, lv: usize) -> (res: Option<(BinOp, usize)>)
    requires
        end <= toks@.len(),
        pos < usize::MAX,
    ensures
        match level_op(toks@, end as int, pos as int, lv as nat) {
            Some((op, n)) => res == Some((op, n as usize)) && 1 <= n <= 2,
            None => res is None,
        },
{
    if lv == 1 {
        if punct_is(toks, end, pos, '*') {
            Some((BinOp::Mul, 1))
        } else if punct_is(toks, end, pos, '/') {
            Some((BinOp::Div, 1))
        } else if punct_is(toks, end, pos, '%') {
            Some((BinOp::Rem, 1))
        } else {
            None
        }
    } else if lv == 2 {
        if punct_is(toks, end, pos, '+') {
            Some((BinOp::Add, 1))
        } else if punct_is(toks, end, pos, '-') {
            Some((BinOp::Sub, 1))
        } else {
            None
        }
    } else if lv == 3 {
        if op2_is(toks, end, pos, '<', '<') {
            Some((BinOp::Shl, 2))
        } else if op2_is(toks, end, pos, '>', '>') {
            Some((BinOp::Shr, 2))
        } else {
            None
        }
    } else if lv == 4 {
        if punct_is(toks, end, pos, '&') && !op2_is(toks, end, pos, '&', '&') {
            Some((BinOp::BitAnd, 1))
        } else {
            None
        }
    } else if lv == 5 {
        if punct_is(toks, end, pos, '^') {
            Some((BinOp::BitXor, 1))
        } else {
            None
        }
    } else if lv == 6 {
        if punct_is(toks, end, pos, '|') && !op2_is(toks, end, pos, '|', '|') {
            Some((BinOp::BitOr, 1))
        } else {
            None
        }
    } else if lv == 8 {
        if op2_is(toks, end, pos, '&', '&') {
            Some((BinOp::And, 2))
        } else {
            None
        }
    } else if lv == 9 {
        if op2_is(toks, end, pos, '|', '|') {
            Some((BinOp::Or, 2))
        } else {
            None
        }
    } else {
        None
    }
}

fn lv_rest_exec(
    toks: &Vec<Token>,
    end: usize,
    lhs: Expr,
    pos: usize,
    names: &Vec<Vec<char>>,
    tag: bool,
    lv: usize,
) -> (res: Result<(Expr, usize), SyntaxError>)
    requires
        end <= toks@.len(),
        pos <= end,
        lv <= 9,
    ensures
        lift(res) == lv_rest(toks@, end as int, lhs, pos as int, names_view(names@), tag, lv as nat),
        res is Ok ==> pos <= res->Ok_0.1 <= end,
    decreases toks@, end - pos, 2 * lv + 2,
{
    if lv == 7 {
        return rel_rest_exec(toks, end, lhs, pos, names, tag);
    }
    if lv == 0 || pos >= end {
        return Ok((lhs, pos));
    }
    match level_op_is(toks, end, pos, lv) {
        Some((op, n)) => {
            if n > end - pos {
                return Err(SyntaxError::BadExpression);
            }
            match lv_expr_exec(toks, end, pos + n, names, tag, lv - 1) {
                Ok((r, p)) => lv_rest_exec(toks, end, Expr::Bin(op, Box::new(lhs), Box::new(r)), p, names, tag, lv),
                Err(x) => Err(x),
            }
        },
        None => Ok((lhs, pos)),
    }
}

fn lv_expr_exec(toks: &Vec<Token>, end: usize, pos: usize, names: &Vec<Vec<char>>, tag: bool, lv: usize) -> (res: Result<
    (Expr, usize),
    SyntaxError,
>)
    requires
        end <= toks@.len(),
        lv <= 9,
    ensures
        lift(res) == lv_expr(toks@, end as int, pos as int, names_view(names@), tag, lv as nat),
        res is Ok ==> pos < res->Ok_0.1 <= end,
    decreases toks@, end - pos, 2 * lv + 3,
{
    if lv == 0 {
        return cast_expr_exec(toks, end, pos, names, tag);
    }
    match lv_expr_exec(toks, end, pos, names, tag, lv - 1) {
        Ok((e, p)) => lv_rest_exec(toks, end, e, p, names, tag, lv),
        Err(x) => Err(x),
    }
}

fn rel_rest_exec(
    toks: &Vec<Token>,
    end: usize,
    lhs: Expr,
    pos: usize,
    names: &Vec<Vec<char>>,
    tag: bool,
) -> (res: Result<(Expr, usize), SyntaxError>)
    requires
        end <= toks@.len(),
        pos <= end,
    ensures
        lift(res) == rel_rest(toks@, end as int, lhs, pos as int, names_view(names@), tag),
        res is Ok ==> pos <= res->Ok_0.1 <= end,
    decreases toks@, end - pos, 15int,
{
    if pos >= end {
        return Ok((lhs, pos));
    }
    match rel_op_is(toks, end, pos) {
        Some((op, n)) => match lv_expr_exec(toks, end, pos + n, names, tag, 6) {
            Ok((r, p)) => Ok((Expr::Bin(op, Box::new(lhs), Box::new(r)), p)),
            Err(x) => Err(x),
        },
        None => Ok((lhs, pos)),
    }
}

fn or_expr_exec(toks: &Vec<Token>, end: usize, pos: usize, names: &Vec<Vec<char>>, tag: bool) -> (res: Result<
    (Expr, usize),
    SyntaxError,
>)
    requires
        end <= toks@.len(),
    ensures
        lift(res) == or_expr(toks@, end as int, pos as int, names_view(names@), tag),
        res is Ok ==> pos < res->Ok_0.1 <= end,
    decreases toks@, end - pos, 22int,
{
    lv_expr_exec(toks, end, pos, names, tag, 9)
}

fn climb_exec(
    toks: &Vec<Token>,
    end: usize,
    lhs: Expr,
    pos: usize,
    names: &Vec<Vec<char>>,
    tag: bool,
    lv: usize,
) -> (res: Result<(Expr, usize), SyntaxError>)
    requires
        end <= toks@.len(),
        pos <= end,
        1 <= lv <= 10,
    ensures
        lift(res) == climb(toks@, end as int, lhs, pos as int, names_view(names@), tag, lv as nat),
        res is Ok ==> pos <= res->Ok_0.1 <= end,
    decreases 10 - lv,
{
    if lv >= 10 {
        return Ok((lhs, pos));
    }
    match lv_rest_exec(toks, end, lhs, pos, names, tag, lv) {
        Ok((e, p)) => climb_exec(toks, end, e, p, names, tag, lv + 1),
        Err(x) => Err(x),
    }
}

/// The expression that the tokens `lo .. hi` spell; see `expr_in`.
pub fn parse_expr(toks: &Vec<Token>, lo: usize, hi: usize, names: &Vec<Vec<char>>, tag: bool) -> (res: Result<
    Expr,
    SyntaxError,
>)
    requires
        hi <= toks@.len(),
    ensures
        res == expr_in(toks@, lo as int, hi as int, names_view(names@), tag),
{
    match or_expr_exec(toks, hi, lo, names, tag) {
        Ok((e, p)) => if p == hi {
            Ok(e)
        } else {
            Err(SyntaxError::BadExpression)
        },
        Err(x) => Err(x),
    }
}


/// A field type as a definition writes it.
#[derive(Debug)]
pub enum TypeDef {
    UInt(u8),
    Int(u8),
    Bool,
    USize,
    /// `Vec<u8>`, with `; size` when a size expression follows.
    Bytes(Option<Expr>),
    /// `CStr`, with `; name` when an earlier field bounds it.
    CStr(Option<Expr>),
    /// `[u8; N]`.
    Array(u8),
    Optional(Box<TypeDef>),
    Boxed(Box<TypeDef>),
    /// Any other type path, as the tokens `start .. end` beside the field's
    /// name; it names a type that reads and writes itself.
    Custom(usize, usize),
}

pub open spec fn is_group_at(toks: Seq<Token>, end: int, i: int, d: Delim) -> bool {
    0 <= i < end && i < toks.len() && (toks[i] matches Token::Group(x, _) && x == d)
}

/// The end of a type path `a::b::C` that starts with the identifier at `pos`.
pub open spec fn path_end(toks: Seq<Token>, end: int, pos: int) -> int
    decreases end - pos,
{
    if op2_at(toks, end, pos + 1, ':', ':') && is_ident_at(toks, end, pos + 3) {
        path_end(toks, end, pos + 3)
    } else {
        pos + 1
    }
}

/// `[u8; N]` inside brackets; any element type but `u8` is refused as
/// such.
pub open spec fn array_len(inner: Seq<Token>) -> Result<u8, SyntaxError> {
    if inner.len() >= 1 && inner[0] is Ident && inner[0]->Ident_0@ != seq!['u', '8'] {
        Err(SyntaxError::SliceElementNotU8)
    } else if inner.len() == 3 && ident_at(inner, 3, 0, seq!['u', '8']) && punct_at(inner, 3, 1, ';')
        && inner[2] is Lit {
        match lit_i128(inner[2]->Lit_0@) {
            Some(n) => if 0 <= n <= 255 {
                Ok(n as u8)
            } else {
                Err(SyntaxError::BadType)
            },
            None => Err(SyntaxError::BadType),
        }
    } else {
        Err(SyntaxError::BadType)
    }
}

/// `Vec<u8>` after its name at `pos`: where the optional `<u8>` ends; any
/// element type but `u8` is refused as such.
pub open spec fn vec_args_end(toks: Seq<Token>, end: int, pos: int) -> Result<int, SyntaxError> {
    if punct_at(toks, end, pos + 1, '<') {
        if is_ident_at(toks, end, pos + 2) && !ident_at(toks, end, pos + 2, seq!['u', '8']) {
            Err(SyntaxError::VecElementNotU8)
        } else if ident_at(toks, end, pos + 2, seq!['u', '8']) && punct_at(toks, end, pos + 3, '>') {
            Ok(pos + 4)
        } else {
            Err(SyntaxError::BadType)
        }
    } else {
        Ok(pos + 1)
    }
}

/// A field type at `pos`: a bit-width integer, `bool`, `usize`, `Vec<u8>`
/// with an optional size expression, `CStr`, `[u8; N]`, `Option<T>`,
/// `Box<T>`, or a path to another type.
pub open spec fn parse_type(toks: Seq<Token>, end: int, pos: int, names: Seq<Seq<char>>) -> Result<
    (TypeDef, int),
    SyntaxError,
>
    decreases end - pos,
{
    if pos < 0 || pos >= end || end > toks.len() {
        Err(SyntaxError::BadType)
    } else {
        match toks[pos] {
            Token::Group(d, inner) => if d == Delim::Bracket {
                match array_len(inner@) {
                    Ok(n) => Ok((TypeDef::Array(n), pos + 1)),
                    Err(x) => Err(x),
                }
            } else {
                Err(SyntaxError::BadType)
            },
            Token::Ident(s) => match type_keyword_of(s@) {
                TypeKeyword::Bool => Ok((TypeDef::Bool, pos + 1)),
                TypeKeyword::USize => Ok((TypeDef::USize, pos + 1)),
                TypeKeyword::UInt(n) => Ok((TypeDef::UInt(n), pos + 1)),
                TypeKeyword::Int(n) => Ok((TypeDef::Int(n), pos + 1)),
                TypeKeyword::Vec => match vec_args_end(toks, end, pos) {
                    Ok(p1) => if punct_at(toks, end, p1, ';') {
                        match or_expr(toks, end, p1 + 1, names, false) {
                            Ok((e, p)) => Ok((TypeDef::Bytes(Some(e)), p)),
                            Err(x) => Err(x),
                        }
                    } else {
                        Ok((TypeDef::Bytes(None), p1))
                    },
                    Err(x) => Err(x),
                },
                TypeKeyword::Option => if punct_at(toks, end, pos + 1, '<') {
                    match parse_type(toks, end, pos + 2, names) {
                        Ok((t, p)) => if punct_at(toks, end, p, '>') {
                            Ok((TypeDef::Optional(Box::new(t)), p + 1))
                        } else {
                            Err(SyntaxError::BadType)
                        },
                        Err(x) => Err(x),
                    }
                } else {
                    Err(SyntaxError::BadType)
                },
                TypeKeyword::Box => if punct_at(toks, end, pos + 1, '<') {
                    match parse_type(toks, end, pos + 2, names) {
                        Ok((t, p)) => if punct_at(toks, end, p, '>') {
                            Ok((TypeDef::Boxed(Box::new(t)), p + 1))
                        } else {
                            Err(SyntaxError::BadType)
                        },
                        Err(x) => Err(x),
                    }
                } else {
                    Err(SyntaxError::BadType)
                },
                TypeKeyword::CStr => if punct_at(toks, end, pos + 1, ';') {
                    if is_ident_at(toks, end, pos + 2) {
                        match find_last(names, toks[pos + 2]->Ident_0@, names.len()) {
                            Some(k) => Ok((TypeDef::CStr(Some(Expr::Field(k as usize))), pos + 3)),
                            None => Err(SyntaxError::BadExpression),
                        }
                    } else {
                        Err(SyntaxError::BadType)
                    }
                } else {
                    Ok((TypeDef::CStr(None), pos + 1))
                },
                TypeKeyword::Other => {
                    let p = path_end(toks, end, pos);
                    if punct_at(toks, end, p, '<') {
                        match angle_close(toks, end, p + 1, 1) {
                            Some(q) => Ok((TypeDef::Custom(pos as usize, q as usize), q)),
                            None => Err(SyntaxError::BadType),
                        }
                    } else {
                        Ok((TypeDef::Custom(pos as usize, p as usize), p))
                    }
                },
            },
            _ => Err(SyntaxError::BadType),
        }
    }
}

pub open spec fn lift_type(r: Result<(TypeDef, usize), SyntaxError>) -> Result<(TypeDef, int), SyntaxError> {
    match r {
        Ok((t, p)) => Ok((t, p as int)),
        Err(x) => Err(x),
    }
}

fn group_is(toks: &Vec<Token>, end: usize, i: usize, d: Delim) -> (res: bool)
    requires
        end <= toks@.len(),
    ensures
        res == is_group_at(toks@, end as int, i as int, d),
{
    if i < end {
        match &toks[i] {
            Token::Group(x, _) => *x == d,
            _ => false,
        }
    } else {
        false
    }
}

/// Generic arguments `<..>` of a type path: the position after the `>`
/// that closes the `<` before `pos`, with `depth` brackets open.
pub open spec fn angle_close(toks: Seq<Token>, end: int, pos: int, depth: nat) -> Option<int>
    decreases end - pos,
{
    if pos < 0 || pos >= end || end > toks.len() {
        None
    } else if punct_at(toks, end, pos, '<') {
        angle_close(toks, end, pos + 1, depth + 1)
    } else if punct_at(toks, end, pos, '>') {
        if depth <= 1 {
            Some(pos + 1)
        } else {
            angle_close(toks, end, pos + 1, (depth - 1) as nat)
        }
    } else {
        angle_close(toks, end, pos + 1, depth)
    }
}

fn angle_close_exec(toks: &Vec<Token>, end: usize, pos: usize, depth: usize) -> (res: Option<usize>)
    requires
        end <= toks@.len(),
        depth <= pos,
    ensures
        match angle_close(toks@, end as int, pos as int, depth as nat) {
            Some(q) => res == Some(q as usize) && pos < q <= end,
            None => res is None,
        },
    decreases end - pos,
{
    if pos >= end {
        None
    } else if punct_is(toks, end, pos, '<') {
        angle_close_exec(toks, end, pos + 1, depth + 1)
    } else if punct_is(toks, end, pos, '>') {
        if depth <= 1 {
            Some(pos + 1)
        } else {
            angle_close_exec(toks, end, pos + 1, depth - 1)
        }
    } else {
        angle_close_exec(toks, end, pos + 1, depth)
    }
}

fn path_end_exec(toks: &Vec<Token>, end: usize, pos: usize) -> (res: usize)
    requires
        end <= toks@.len(),
        pos < end,
    ensures
        res as int == path_end(toks@, end as int, pos as int),
        pos < res <= end,
    decreases end - pos,
{
    if end - pos > 3 && op2_is(toks, end, pos + 1, ':', ':') && any_ident_is(toks, end, pos + 3) {
        path_end_exec(toks, end, pos + 3)
    } else {
        pos + 1
    }
}

fn array_len_exec(inner: &Vec<Token>) -> (res: Result<u8, SyntaxError>)
    ensures
        res == array_len(inner@),
{
    if inner.len() >= 1 {
        match &inner[0] {
            Token::Ident(w) => {
                if !chars_equal(w, &['u', '8']) {
                    return Err(SyntaxError::SliceElementNotU8);
                }
            },
            _ => {},
        }
    }
    if inner.len() == 3 && ident_is(inner, 3, 0, &['u', '8']) && punct_is(inner, 3, 1, ';') {
        match &inner[2] {
            Token::Lit(s) => match literal_int(s) {
                Some(n) => if 0 <= n && n <= 255 {
                    Ok(n as u8)
                } else {
                    Err(SyntaxError::BadType)
                },
                None => Err(SyntaxError::BadType),
            },
            _ => Err(SyntaxError::BadType),
        }
    } else {
        Err(SyntaxError::BadType)
    }
}

/// A field type at `pos`; see `parse_type`.
pub fn parse_type_at(toks: &Vec<Token>, end: usize, pos: usize, names: &Vec<Vec<char>>) -> (res: Result<
    (TypeDef, usize),
    SyntaxError,
>)
    requires
        end <= toks@.len(),
    ensures
        lift_type(res) == parse_type(toks@, end as int, pos as int, names_view(names@)),
        res is Ok ==> pos < res->Ok_0.1 <= end,
    decreases end - pos,
{
    if pos >= end {
        return Err(SyntaxError::BadType);
    }
    match &toks[pos] {
        Token::Group(d, inner) => {
            if *d == Delim::Bracket {
                match array_len_exec(inner) {
                    Ok(n) => Ok((TypeDef::Array(n), pos + 1)),
                    Err(x) => Err(x),
                }
            } else {
                Err(SyntaxError::BadType)
            }
        },
        Token::Ident(s) => match type_keyword_chars(s) {
            TypeKeyword::Bool => Ok((TypeDef::Bool, pos + 1)),
            TypeKeyword::USize => Ok((TypeDef::USize, pos + 1)),
            TypeKeyword::UInt(n) => Ok((TypeDef::UInt(n), pos + 1)),
            TypeKeyword::Int(n) => Ok((TypeDef::Int(n), pos + 1)),
            TypeKeyword::Vec => {
                let p1 = if punct_is(toks, end, pos + 1, '<') {
                    if end - pos > 2 && any_ident_is(toks, end, pos + 2) && !ident_is(toks, end, pos + 2, &['u', '8']) {
                        return Err(SyntaxError::VecElementNotU8);
                    }
                    if end - pos > 3 && ident_is(toks, end, pos + 2, &['u', '8']) && punct_is(toks, end, pos + 3, '>') {
                        pos + 4
                    } else {
                        return Err(SyntaxError::BadType);
                    }
                } else {
                    pos + 1
                };
                if punct_is(toks, end, p1, ';') {
                    match or_expr_exec(toks, end, p1 + 1, names, false) {
                        Ok((e, p)) => Ok((TypeDef::Bytes(Some(e)), p)),
                        Err(x) => Err(x),
                    }
                } else {
                    Ok((TypeDef::Bytes(None), p1))
                }
            },
            TypeKeyword::Option => {
                if end - pos > 1 && punct_is(toks, end, pos + 1, '<') {
                    match parse_type_at(toks, end, pos + 2, names) {
                        Ok((t, p)) => if punct_is(toks, end, p, '>') {
                            Ok((TypeDef::Optional(Box::new(t)), p + 1))
                        } else {
                            Err(SyntaxError::BadType)
                        },
                        Err(x) => Err(x),
                    }
                } else {
                    Err(SyntaxError::BadType)
                }
            },
            TypeKeyword::Box => {
                if end - pos > 1 && punct_is(toks, end, pos + 1, '<') {
                    match parse_type_at(toks, end, pos + 2, names) {
                        Ok((t, p)) => if punct_is(toks, end, p, '>') {
                            Ok((TypeDef::Boxed(Box::new(t)), p + 1))
                        } else {
                            Err(SyntaxError::BadType)
                        },
                        Err(x) => Err(x),
                    }
                } else {
                    Err(SyntaxError::BadType)
                }
            },
            TypeKeyword::CStr => {
                if end - pos > 1 && punct_is(toks, end, pos + 1, ';') {
                    if end - pos > 2 {
                        match &toks[pos + 2] {
                            Token::Ident(w) => match find_name(names, w) {
                                Some(k) => Ok((TypeDef::CStr(Some(Expr::Field(k))), pos + 3)),
                                None => Err(SyntaxError::BadExpression),
                            },
                            _ => Err(SyntaxError::BadType),
                        }
                    } else {
                        Err(SyntaxError::BadType)
                    }
                } else {
                    Ok((TypeDef::CStr(None), pos + 1))
                }
            },
            TypeKeyword::Other => {
                let p = path_end_exec(toks, end, pos);
                if punct_is(toks, end, p, '<') {
                    match angle_close_exec(toks, end, p + 1, 1) {
                        Some(q) => Ok((TypeDef::Custom(pos, q), q)),
                        None => Err(SyntaxError::BadType),
                    }
                } else {
                    Ok((TypeDef::Custom(pos, p), p))
                }
            },
        },
        _ => Err(SyntaxError::BadType),
    }
}


/// One entry of a record definition, in the order written; the entries of
/// an `if` block follow the block's own entry.
#[derive(Debug)]
pub enum Item {
    /// `consume(e)`.
    Consume(Expr),
    /// A field whose name is the identifier at `.0` of the body.
    Field(usize, TypeDef),
    /// An excluded field: its name is the identifier at `.1` inside the
    /// `exclude` braces at `.0` of the body.
    Exclude(usize, usize, TypeDef),
    /// `if cond { .. }` whose braces are at `.1` of the body; the next `.2`
    /// items are its entries.
    Cond(Expr, usize, usize),
    /// `consume(e)` inside an `if` block.
    BlockConsume(Expr),
    /// A field inside an `if` block; its name is the identifier at `.0`
    /// inside the block's braces.
    BlockField(usize, TypeDef),
}

/// Outer attributes `#[..]` from `pos` on: where they end.
pub open spec fn skip_attrs(toks: Seq<Token>, pos: int) -> int
    decreases toks.len() - pos,
{
    if punct_at(toks, toks.len() as int, pos, '#') && is_group_at(toks, toks.len() as int, pos + 1, Delim::Bracket) {
        skip_attrs(toks, pos + 2)
    } else {
        pos
    }
}

/// A visibility (`pub`, `pub(..)`) at `pos`: where it ends.
pub open spec fn skip_vis(toks: Seq<Token>, pos: int) -> int {
    if ident_at(toks, toks.len() as int, pos, seq!['p', 'u', 'b']) {
        if is_group_at(toks, toks.len() as int, pos + 1, Delim::Paren) {
            pos + 2
        } else {
            pos + 1
        }
    } else {
        pos
    }
}

/// Separators `,` and `;` from `pos` on: where they end.
pub open spec fn skip_seps(toks: Seq<Token>, pos: int) -> int
    decreases toks.len() - pos,
{
    if punct_at(toks, toks.len() as int, pos, ',') || punct_at(toks, toks.len() as int, pos, ';') {
        skip_seps(toks, pos + 1)
    } else {
        pos
    }
}

/// The first brace group at or after `pos`, or the end.
pub open spec fn brace_from(toks: Seq<Token>, pos: int) -> int
    decreases toks.len() - pos,
{
    if pos < 0 || pos >= toks.len() {
        toks.len() as int
    } else if toks[pos] matches Token::Group(d, _) && d == Delim::Brace {
        pos
    } else {
        brace_from(toks, pos + 1)
    }
}

pub open spec fn name_at(toks: Seq<Token>, pos: int) -> Seq<char> {
    toks[pos]->Ident_0@
}

/// A field declaration `name: T` at `pos`.
pub open spec fn field_decl(toks: Seq<Token>, pos: int, names: Seq<Seq<char>>) -> Result<(TypeDef, int), SyntaxError> {
    if is_ident_at(toks, toks.len() as int, pos) && punct_at(toks, toks.len() as int, pos + 1, ':') {
        parse_type(toks, toks.len() as int, pos + 2, names)
    } else {
        Err(SyntaxError::BadItem)
    }
}

/// The expression that all the tokens of the group at `pos` spell.
pub open spec fn group_expr(toks: Seq<Token>, pos: int, names: Seq<Seq<char>>) -> Result<Expr, SyntaxError> {
    match toks[pos] {
        Token::Group(_, inner) => match expr_in(inner@, 0, inner@.len() as int, names, false) {
            Ok(e) => Ok(Expr::Paren(pos as usize, Box::new(e))),
            Err(x) => Err(x),
        },
        _ => Err(SyntaxError::BadItem),
    }
}

/// The entries of an `if` block from `pos` on, after `acc`; with the field
/// names after them.
pub open spec fn block_items(b: Seq<Token>, pos: int, names: Seq<Seq<char>>, acc: Seq<Item>) -> Result<
    (Seq<Item>, Seq<Seq<char>>),
    SyntaxError,
>
    decreases b.len() - pos,
{
    if pos < 0 || pos >= b.len() {
        Ok((acc, names))
    } else {
        let p0 = skip_vis(b, skip_attrs(b, pos));
        if ident_at(b, b.len() as int, p0, seq!['c', 'o', 'n', 's', 'u', 'm', 'e']) {
            if is_group_at(b, b.len() as int, p0 + 1, Delim::Paren) {
                match group_expr(b, p0 + 1, names) {
                    Ok(e) => {
                        let q = skip_seps(b, p0 + 2);
                        if pos < q <= b.len() {
                            block_items(b, q, names, acc.push(Item::BlockConsume(e)))
                        } else {
                            Err(SyntaxError::BadItem)
                        }
                    },
                    Err(x) => Err(x),
                }
            } else {
                Err(SyntaxError::BadItem)
            }
        } else {
            match field_decl(b, p0, names) {
                Ok((t, p)) => {
                    let q = skip_seps(b, p);
                    if pos < q <= b.len() {
                        block_items(
                            b,
                            q,
                            names.push(name_at(b, p0)),
                            acc.push(Item::BlockField(p0 as usize, t)),
                        )
                    } else {
                        Err(SyntaxError::BadItem)
                    }
                },
                Err(x) => Err(x),
            }
        }
    }
}

/// The fields of an `exclude` block (its braces at `g` of the body) from
/// `pos` on, after `acc`; with the field names after them.
pub open spec fn exclude_items(
    x: Seq<Token>,
    pos: int,
    g: int,
    names: Seq<Seq<char>>,
    acc: Seq<Item>,
) -> Result<(Seq<Item>, Seq<Seq<char>>), SyntaxError>
    decreases x.len() - pos,
{
    if pos < 0 || pos >= x.len() {
        Ok((acc, names))
    } else {
        let p0 = skip_vis(x, skip_attrs(x, pos));
        match field_decl(x, p0, names) {
            Ok((t, p)) => {
                let q = skip_seps(x, p);
                if pos < q <= x.len() {
                    exclude_items(
                        x,
                        q,
                        g,
                        names.push(name_at(x, p0)),
                        acc.push(Item::Exclude(g as usize, p0 as usize, t)),
                    )
                } else {
                    Err(SyntaxError::BadItem)
                }
            },
            Err(e) => Err(e),
        }
    }
}

/// The entries of a record body from `pos` on, after `acc`.
pub open spec fn body_items(b: Seq<Token>, pos: int, names: Seq<Seq<char>>, acc: Seq<Item>) -> Result<
    Seq<Item>,
    SyntaxError,
>
    decreases b.len() - pos,
{
    if pos < 0 || pos >= b.len() {
        Ok(acc)
    } else {
        let p0 = skip_attrs(b, pos);
        if ident_at(b, b.len() as int, p0, seq!['i', 'f']) {
            let g = brace_from(b, p0 + 1);
            if g >= b.len() {
                Err(SyntaxError::BadItem)
            } else {
                match expr_in(b, p0 + 1, g, names, false) {
                    Ok(c) => match b[g] {
                        Token::Group(_, inner) => match block_items(inner@, 0, names, Seq::empty()) {
                            Ok((entries, names2)) => {
                                let q = skip_seps(b, g + 1);
                                if pos < q <= b.len() {
                                    body_items(
                                        b,
                                        q,
                                        names2,
                                        acc.push(Item::Cond(c, g as usize, entries.len() as usize)) + entries,
                                    )
                                } else {
                                    Err(SyntaxError::BadItem)
                                }
                            },
                            Err(x) => Err(x),
                        },
                        _ => Err(SyntaxError::BadItem),
                    },
                    Err(x) => Err(x),
                }
            }
        } else if ident_at(b, b.len() as int, p0, seq!['e', 'x', 'c', 'l', 'u', 'd', 'e']) {
            if is_group_at(b, b.len() as int, p0 + 1, Delim::Brace) {
                match b[p0 + 1] {
                    Token::Group(_, inner) => match exclude_items(inner@, 0, p0 + 1, names, acc) {
                        Ok((acc2, names2)) => {
                            let q = skip_seps(b, p0 + 2);
                            if pos < q <= b.len() {
                                body_items(b, q, names2, acc2)
                            } else {
                                Err(SyntaxError::BadItem)
                            }
                        },
                        Err(x) => Err(x),
                    },
                    _ => Err(SyntaxError::BadItem),
                }
            } else {
                Err(SyntaxError::BadItem)
            }
        } else {
            let p1 = skip_vis(b, p0);
            if ident_at(b, b.len() as int, p1, seq!['c', 'o', 'n', 's', 'u', 'm', 'e']) {
                if is_group_at(b, b.len() as int, p1 + 1, Delim::Paren) {
                    match group_expr(b, p1 + 1, names) {
                        Ok(e) => {
                            let q = skip_seps(b, p1 + 2);
                            if pos < q <= b.len() {
                                body_items(b, q, names, acc.push(Item::Consume(e)))
                            } else {
                                Err(SyntaxError::BadItem)
                            }
                        },
                        Err(x) => Err(x),
                    }
                } else {
                    Err(SyntaxError::BadItem)
                }
            } else {
                match field_decl(b, p1, names) {
                    Ok((t, p)) => {
                        let q = skip_seps(b, p);
                        if pos < q <= b.len() {
                            body_items(b, q, names.push(name_at(b, p1)), acc.push(Item::Field(p1 as usize, t)))
                        } else {
                            Err(SyntaxError::BadItem)
                        }
                    },
                    Err(x) => Err(x),
                }
            }
        }
    }
}

/// What the rule on byte vectors without a size sees of a field type.
pub open spec fn shape_of(t: TypeDef) -> FieldType {
    match t {
        TypeDef::Bytes(None) => FieldType::Bytes(None),
        _ => FieldType::Bool,
    }
}

pub open spec fn item_entries(it: Item) -> Seq<BlockRow> {
    match it {
        Item::Consume(_) => seq![BlockRow::Consume(Expr::Lit(0))],
        Item::BlockConsume(_) => seq![BlockRow::Consume(Expr::Lit(0))],
        Item::Field(_, t) => seq![BlockRow::Field(shape_of(t))],
        Item::BlockField(_, t) => seq![BlockRow::Field(shape_of(t))],
        Item::Exclude(_, _, _) => seq![BlockRow::Field(FieldType::Exclude(Box::new(FieldType::Bool)))],
        Item::Cond(_, _, _) => Seq::empty(),
    }
}

/// The entries of a record in stream order, for the rule on byte vectors
/// without a size.
pub open spec fn entries_of(items: Seq<Item>) -> Seq<BlockRow>
    decreases items.len(),
{
    if items.len() == 0 {
        Seq::empty()
    } else {
        entries_of(items.drop_last()) + item_entries(items.last())
    }
}

/// A record definition (`make_struct!`): outer attributes, a visibility,
/// the name, and the braced body with nothing after it. Yields where the
/// attributes end, the position of the name, and the entries.
pub open spec fn struct_def(toks: Seq<Token>) -> Result<(int, int, Seq<Item>), SyntaxError> {
    let a = skip_attrs(toks, 0);
    let v = skip_vis(toks, a);
    if is_ident_at(toks, toks.len() as int, v) && is_group_at(toks, toks.len() as int, v + 1, Delim::Brace) && v
        + 2 == toks.len() {
        match toks[v + 1] {
            Token::Group(_, body) => match body_items(body@, 0, Seq::empty(), Seq::empty()) {
                Ok(items) => match entries_check(entries_of(items)) {
                    Ok(()) => Ok((a, v, items)),
                    Err(e) => Err(SyntaxError::Layout(e)),
                },
                Err(x) => Err(x),
            },
            _ => Err(SyntaxError::BadHeader),
        }
    } else {
        Err(SyntaxError::BadHeader)
    }
}


fn skip_attrs_exec(toks: &Vec<Token>, pos: usize) -> (res: usize)
    ensures
        res as int == skip_attrs(toks@, pos as int),
        pos <= res,
        pos <= toks@.len() ==> res <= toks@.len(),
    decreases toks@.len() - pos,
{
    let n = toks.len();
    if pos < n && n - pos > 1 && punct_is(toks, n, pos, '#') && group_is(toks, n, pos + 1, Delim::Bracket) {
        skip_attrs_exec(toks, pos + 2)
    } else {
        pos
    }
}

fn skip_vis_exec(toks: &Vec<Token>, pos: usize) -> (res: usize)
    ensures
        res as int == skip_vis(toks@, pos as int),
        pos <= res,
        pos <= toks@.len() ==> res <= toks@.len(),
{
    let n = toks.len();
    if pos < n && ident_is(toks, n, pos, &['p', 'u', 'b']) {
        if n - pos > 1 && group_is(toks, n, pos + 1, Delim::Paren) {
            pos + 2
        } else {
            pos + 1
        }
    } else {
        pos
    }
}

fn skip_seps_exec(toks: &Vec<Token>, pos: usize) -> (res: usize)
    ensures
        res as int == skip_seps(toks@, pos as int),
        pos <= res,
        pos <= toks@.len() ==> res <= toks@.len(),
    decreases toks@.len() - pos,
{
    let n = toks.len();
    if pos < n && (punct_is(toks, n, pos, ',') || punct_is(toks, n, pos, ';')) {
        skip_seps_exec(toks, pos + 1)
    } else {
        pos
    }
}

fn brace_from_exec(toks: &Vec<Token>, pos: usize) -> (res: usize)
    ensures
        res as int == brace_from(toks@, pos as int),
        res <= toks@.len(),
        res < toks@.len() ==> pos <= res,
    decreases toks@.len() - pos,
{
    if pos >= toks.len() {
        return toks.len();
    }
    match &toks[pos] {
        Token::Group(d, _) => if *d == Delim::Brace {
            pos
        } else {
            brace_from_exec(toks, pos + 1)
        },
        _ => brace_from_exec(toks, pos + 1),
    }
}

fn copy_chars(v: &Vec<char>) -> (res: Vec<char>)
    ensures
        res@ == v@,
{
    let mut out: Vec<char> = Vec::new();
    let mut i: usize = 0;
    while i < v.len()
        invariant
            i <= v@.len(),
            out@ == v@.take(i as int),
        decreases v@.len() - i,
    {
        out.push(v[i]);
        i = i + 1;
        proof {
            assert(out@ =~= v@.take(i as int));
        }
    }
    proof {
        assert(v@.take(v@.len() as int) =~= v@);
    }
    out
}

/// Appends the name at `pos` (an identifier) to `names`.
fn push_name(toks: &Vec<Token>, pos: usize, names: &mut Vec<Vec<char>>)
    requires
        pos < toks@.len(),
        toks@[pos as int] is Ident,
    ensures
        names_view(final(names)@) == names_view(old(names)@).push(name_at(toks@, pos as int)),
{
    match &toks[pos] {
        Token::Ident(s) => {
            let c = copy_chars(s);
            names.push(c);
        },
        _ => {},
    }
    proof {
        assert(names_view(names@) =~= names_view(old(names)@).push(name_at(toks@, pos as int)));
    }
}

fn field_decl_exec(toks: &Vec<Token>, pos: usize, names: &Vec<Vec<char>>) -> (res: Result<(TypeDef, usize), SyntaxError>)
    ensures
        lift_type(res) == field_decl(toks@, pos as int, names_view(names@)),
        res is Ok ==> pos + 2 < res->Ok_0.1 <= toks@.len() && toks@[pos as int] is Ident,
{
    let n = toks.len();
    if pos < n && n - pos > 1 && any_ident_is(toks, n, pos) && punct_is(toks, n, pos + 1, ':') {
        parse_type_at(toks, n, pos + 2, names)
    } else {
        Err(SyntaxError::BadItem)
    }
}

fn group_expr_exec(toks: &Vec<Token>, pos: usize, names: &Vec<Vec<char>>) -> (res: Result<Expr, SyntaxError>)
    requires
        pos < toks@.len(),
    ensures
        res == group_expr(toks@, pos as int, names_view(names@)),
{
    match &toks[pos] {
        Token::Group(_, inner) => match parse_expr(inner, 0, inner.len(), names, false) {
            Ok(e) => Ok(Expr::Paren(pos, Box::new(e))),
            Err(x) => Err(x),
        },
        _ => Err(SyntaxError::BadItem),
    }
}

fn block_items_exec(b: &Vec<Token>, pos: usize, names: &mut Vec<Vec<char>>, acc: &mut Vec<Item>) -> (res: Result<
    (),
    SyntaxError,
>)
    ensures
        match block_items(b@, pos as int, names_view(old(names)@), old(acc)@) {
            Ok((a2, n2)) => res is Ok && final(acc)@ == a2 && names_view(final(names)@) == n2,
            Err(x) => res == Err::<(), SyntaxError>(x),
        },
    decreases b@.len() - pos,
{
    let n = b.len();
    if pos >= n {
        return Ok(());
    }
    let p0 = skip_vis_exec(b, skip_attrs_exec(b, pos));
    if ident_is(b, n, p0, &['c', 'o', 'n', 's', 'u', 'm', 'e']) {
        if n - p0 > 1 && group_is(b, n, p0 + 1, Delim::Paren) {
            match group_expr_exec(b, p0 + 1, names) {
                Ok(e) => {
                    let q = skip_seps_exec(b, p0 + 2);
                    acc.push(Item::BlockConsume(e));
                    block_items_exec(b, q, names, acc)
                },
                Err(x) => Err(x),
            }
        } else {
            Err(SyntaxError::BadItem)
        }
    } else {
        match field_decl_exec(b, p0, names) {
            Ok((t, p)) => {
                let q = skip_seps_exec(b, p);
                push_name(b, p0, names);
                acc.push(Item::BlockField(p0, t));
                block_items_exec(b, q, names, acc)
            },
            Err(x) => Err(x),
        }
    }
}

fn exclude_items_exec(
    x: &Vec<Token>,
    pos: usize,
    g: usize,
    names: &mut Vec<Vec<char>>,
    acc: &mut Vec<Item>,
) -> (res: Result<(), SyntaxError>)
    ensures
        match exclude_items(x@, pos as int, g as int, names_view(old(names)@), old(acc)@) {
            Ok((a2, n2)) => res is Ok && final(acc)@ == a2 && names_view(final(names)@) == n2,
            Err(e) => res == Err::<(), SyntaxError>(e),
        },
    decreases x@.len() - pos,
{
    if pos >= x.len() {
        return Ok(());
    }
    let p0 = skip_vis_exec(x, skip_attrs_exec(x, pos));
    match field_decl_exec(x, p0, names) {
        Ok((t, p)) => {
            let q = skip_seps_exec(x, p);
            push_name(x, p0, names);
            acc.push(Item::Exclude(g, p0, t));
            exclude_items_exec(x, q, g, names, acc)
        },
        Err(e) => Err(e),
    }
}

fn body_items_exec(b: &Vec<Token>, pos: usize, names: &mut Vec<Vec<char>>, acc: &mut Vec<Item>) -> (res: Result<
    (),
    SyntaxError,
>)
    ensures
        match body_items(b@, pos as int, names_view(old(names)@), old(acc)@) {
            Ok(a2) => res is Ok && final(acc)@ == a2,
            Err(x) => res == Err::<(), SyntaxError>(x),
        },
    decreases b@.len() - pos,
{
    let n = b.len();
    if pos >= n {
        return Ok(());
    }
    let p0 = skip_attrs_exec(b, pos);
    if ident_is(b, n, p0, &['i', 'f']) {
        let g = brace_from_exec(b, p0 + 1);
        if g >= n {
            return Err(SyntaxError::BadItem);
        }
        match parse_expr(b, p0 + 1, g, names, false) {
            Ok(c) => match &b[g] {
                Token::Group(_, inner) => {
                    let mut entries: Vec<Item> = Vec::new();
                    match block_items_exec(inner, 0, names, &mut entries) {
                        Ok(()) => {
                            let q = skip_seps_exec(b, g + 1);
                            acc.push(Item::Cond(c, g, entries.len()));
                            acc.append(&mut entries);
                            body_items_exec(b, q, names, acc)
                        },
                        Err(x) => Err(x),
                    }
                },
                _ => Err(SyntaxError::BadItem),
            },
            Err(x) => Err(x),
        }
    } else if ident_is(b, n, p0, &['e', 'x', 'c', 'l', 'u', 'd', 'e']) {
        if n - p0 > 1 && group_is(b, n, p0 + 1, Delim::Brace) {
            match &b[p0 + 1] {
                Token::Group(_, inner) => match exclude_items_exec(inner, 0, p0 + 1, names, acc) {
                    Ok(()) => {
                        let q = skip_seps_exec(b, p0 + 2);
                        body_items_exec(b, q, names, acc)
                    },
                    Err(x) => Err(x),
                },
                _ => Err(SyntaxError::BadItem),
            }
        } else {
            Err(SyntaxError::BadItem)
        }
    } else {
        let p1 = skip_vis_exec(b, p0);
        if ident_is(b, n, p1, &['c', 'o', 'n', 's', 'u', 'm', 'e']) {
            if n - p1 > 1 && group_is(b, n, p1 + 1, Delim::Paren) {
                match group_expr_exec(b, p1 + 1, names) {
                    Ok(e) => {
                        let q = skip_seps_exec(b, p1 + 2);
                        acc.push(Item::Consume(e));
                        body_items_exec(b, q, names, acc)
                    },
                    Err(x) => Err(x),
                }
            } else {
                Err(SyntaxError::BadItem)
            }
        } else {
            match field_decl_exec(b, p1, names) {
                Ok((t, p)) => {
                    let q = skip_seps_exec(b, p);
                    push_name(b, p1, names);
                    acc.push(Item::Field(p1, t));
                    body_items_exec(b, q, names, acc)
                },
                Err(x) => Err(x),
            }
        }
    }
}


fn entries_vec(items: &Vec<Item>) -> (res: Vec<BlockRow>)
    ensures
        res@ == entries_of(items@),
{
    let mut out: Vec<BlockRow> = Vec::new();
    let mut i: usize = 0;
    while i < items.len()
        invariant
            i <= items@.len(),
            out@ == entries_of(items@.take(i as int)),
        decreases items@.len() - i,
    {
        proof {
            assert(items@.take(i + 1).drop_last() =~= items@.take(i as int));
            assert(items@.take(i + 1).last() == items@[i as int]);
        }
        match &items[i] {
            Item::Consume(_) => out.push(BlockRow::Consume(Expr::Lit(0))),
            Item::BlockConsume(_) => out.push(BlockRow::Consume(Expr::Lit(0))),
            Item::Field(_, t) => out.push(BlockRow::Field(shape_exec(t))),
            Item::BlockField(_, t) => out.push(BlockRow::Field(shape_exec(t))),
            Item::Exclude(_, _, _) => out.push(BlockRow::Field(FieldType::Exclude(Box::new(FieldType::Bool)))),
            Item::Cond(_, _, _) => {},
        }
        i = i + 1;
        proof {
            assert(out@ =~= entries_of(items@.take(i as int)));
        }
    }
    proof {
        assert(items@.take(items@.len() as int) =~= items@);
    }
    out
}

fn shape_exec(t: &TypeDef) -> (res: FieldType)
    ensures
        res == shape_of(*t),
{
    match t {
        TypeDef::Bytes(None) => FieldType::Bytes(None),
        _ => FieldType::Bool,
    }
}

/// A record definition read from the tokens of `make_struct!`.
#[derive(Debug)]
pub struct StructDef {
    /// The outer attributes are the tokens before this position.
    pub attrs_end: usize,
    /// The position of the record's name; its braced body follows it.
    pub name: usize,
    pub items: Vec<Item>,
}

/// Reads a record definition; see `struct_def`.
pub fn parse_struct(toks: &Vec<Token>) -> (res: Result<StructDef, SyntaxError>)
    ensures
        match struct_def(toks@) {
            Ok((a, v, items)) => res is Ok && res->Ok_0.attrs_end == a && res->Ok_0.name == v
                && res->Ok_0.items@ == items,
            Err(x) => res == Err::<StructDef, SyntaxError>(x),
        },
{
    let n = toks.len();
    let a = skip_attrs_exec(toks, 0);
    let v = skip_vis_exec(toks, a);
    if v < n && n - v == 2 && any_ident_is(toks, n, v) && group_is(toks, n, v + 1, Delim::Brace) {
        match &toks[v + 1] {
            Token::Group(_, body) => {
                let mut names: Vec<Vec<char>> = Vec::new();
                let mut items: Vec<Item> = Vec::new();
                proof {
                    assert(names_view(names@) =~= Seq::<Seq<char>>::empty());
                    assert(items@ =~= Seq::<Item>::empty());
                }
                match body_items_exec(body, 0, &mut names, &mut items) {
                    Ok(()) => {
                        let es = entries_vec(&items);
                        match validate_entries(&es) {
                            Ok(()) => Ok(StructDef { attrs_end: a, name: v, items }),
                            Err(e) => Err(SyntaxError::Layout(e)),
                        }
                    },
                    Err(x) => Err(x),
                }
            },
            _ => Err(SyntaxError::BadHeader),
        }
    } else {
        Err(SyntaxError::BadHeader)
    }
}


/// The entries of a record definition, before the rule on byte vectors
/// without a size is checked: what a message about that rule names.
pub open spec fn struct_items(toks: Seq<Token>) -> Result<Seq<Item>, SyntaxError> {
    let v = skip_vis(toks, skip_attrs(toks, 0));
    if is_ident_at(toks, toks.len() as int, v) && is_group_at(toks, toks.len() as int, v + 1, Delim::Brace) && v
        + 2 == toks.len() {
        match toks[v + 1] {
            Token::Group(_, body) => body_items(body@, 0, Seq::empty(), Seq::empty()),
            _ => Err(SyntaxError::BadHeader),
        }
    } else {
        Err(SyntaxError::BadHeader)
    }
}

/// Reads the entries of a record definition; see `struct_items`.
pub fn parse_struct_items(toks: &Vec<Token>) -> (res: Result<Vec<Item>, SyntaxError>)
    ensures
        match struct_items(toks@) {
            Ok(items) => res is Ok && res->Ok_0@ == items,
            Err(x) => res == Err::<Vec<Item>, SyntaxError>(x),
        },
{
    let n = toks.len();
    let a = skip_attrs_exec(toks, 0);
    let v = skip_vis_exec(toks, a);
    if v < n && n - v == 2 && any_ident_is(toks, n, v) && group_is(toks, n, v + 1, Delim::Brace) {
        match &toks[v + 1] {
            Token::Group(_, body) => {
                let mut names: Vec<Vec<char>> = Vec::new();
                let mut items: Vec<Item> = Vec::new();
                proof {
                    assert(names_view(names@) =~= Seq::<Seq<char>>::empty());
                    assert(items@ =~= Seq::<Item>::empty());
                }
                match body_items_exec(body, 0, &mut names, &mut items) {
                    Ok(()) => Ok(items),
                    Err(x) => Err(x),
                }
            },
            _ => Err(SyntaxError::BadHeader),
        }
    } else {
        Err(SyntaxError::BadHeader)
    }
}

/// What an assignment rule `= value if cond` stores.
#[derive(Clone, Copy, Debug, PartialEq, Eq, Structural)]
pub enum AssignDef {
    /// The tag itself (`self`, `self.clone()`, `tag_value`).
    Tag,
    /// An integer constant.
    Int(i128),
    /// `vec![..]` of byte constants; its brackets are the token at `.0` of
    /// the body (see `byte_list_of`).
    Bytes(usize),
    /// Any other value: the tokens `.0 .. .1` of the body, code of the
    /// definition's own.
    User(usize, usize),
}

/// How a variant is chosen from the tag.
#[derive(Debug)]
pub enum RuleDef {
    /// `== constant`.
    Exact(i128),
    /// `== value` with any other value: the tokens `.0 .. .1` of the body,
    /// code of the definition's own.
    ExactUser(usize, usize),
    /// `= value if cond`; the condition is `true` when absent.
    Assign(AssignDef, Expr),
    /// A comparison that continues the tag, such as `< 1524`.
    Condition(Expr),
    /// `_`.
    CatchAll,
}

/// A variant: its name at `name` of the body, the type it carries (the
/// tokens in the parentheses after the name) and its rule.
#[derive(Debug)]
pub struct VariantDef {
    pub name: usize,
    pub inner: Option<TypeDef>,
    pub rule: RuleDef,
}

/// The first separator `,` or `;` at or after `pos`, or the end.
pub open spec fn sep_from(toks: Seq<Token>, pos: int) -> int
    decreases toks.len() - pos,
{
    if pos < 0 || pos >= toks.len() {
        toks.len() as int
    } else if punct_at(toks, toks.len() as int, pos, ',') || punct_at(toks, toks.len() as int, pos, ';') {
        pos
    } else {
        sep_from(toks, pos + 1)
    }
}

/// The first separator or `if` at or after `pos`, or the end.
pub open spec fn value_end(toks: Seq<Token>, pos: int) -> int
    decreases toks.len() - pos,
{
    if pos < 0 || pos >= toks.len() {
        toks.len() as int
    } else if punct_at(toks, toks.len() as int, pos, ',') || punct_at(toks, toks.len() as int, pos, ';')
        || ident_at(toks, toks.len() as int, pos, seq!['i', 'f']) {
        pos
    } else {
        value_end(toks, pos + 1)
    }
}

/// An integer constant: a literal, possibly negated.
pub open spec fn const_value(e: Expr) -> Option<i128> {
    match e {
        Expr::Lit(v) => Some(v),
        Expr::Bin(op, a, b) => match *b {
            Expr::Lit(v) => if op == BinOp::Sub && *a == Expr::Lit(0) && v >= 0 {
                Some((0 - v) as i128)
            } else {
                None
            },
            _ => None,
        },
        _ => None,
    }
}

/// The bytes of `1, 2, 3` inside `vec![..]`: literals up to 255, separated
/// by commas, with an optional final comma.
pub open spec fn byte_list(c: Seq<Token>, pos: int) -> Option<Seq<u8>>
    decreases c.len() - pos,
{
    if pos < 0 || pos >= c.len() {
        Some(Seq::empty())
    } else if c[pos] is Lit {
        match lit_i128(c[pos]->Lit_0@) {
            Some(v) => if 0 <= v <= 255 {
                if pos + 1 == c.len() {
                    Some(seq![v as u8])
                } else if punct_at(c, c.len() as int, pos + 1, ',') {
                    match byte_list(c, pos + 2) {
                        Some(rest) => Some(seq![v as u8] + rest),
                        None => None,
                    }
                } else {
                    None
                }
            } else {
                None
            },
            None => None,
        }
    } else {
        None
    }
}

/// The stored value of an assignment rule, the tokens `lo .. hi`.
pub open spec fn assign_value(b: Seq<Token>, lo: int, hi: int) -> Result<AssignDef, SyntaxError> {
    if hi == lo + 3 && ident_at(b, b.len() as int, lo, seq!['v', 'e', 'c']) && punct_at(b, b.len() as int, lo + 1, '!')
        && is_group_at(b, b.len() as int, lo + 2, Delim::Bracket) {
        match b[lo + 2] {
            Token::Group(_, c) => if byte_list(c@, 0) is Some {
                Ok(AssignDef::Bytes((lo + 2) as usize))
            } else {
                Err(SyntaxError::BadVariant)
            },
            _ => Err(SyntaxError::BadVariant),
        }
    } else {
        match expr_in(b, lo, hi, Seq::empty(), true) {
            Ok(e) => if e == Expr::Tag {
                Ok(AssignDef::Tag)
            } else {
                match const_value(e) {
                    Some(v) => Ok(AssignDef::Int(v)),
                    None => Ok(AssignDef::User(lo as usize, hi as usize)),
                }
            },
            Err(_) => if lo < hi {
                Ok(AssignDef::User(lo as usize, hi as usize))
            } else {
                Err(SyntaxError::BadVariant)
            },
        }
    }
}

/// A condition rule: the tokens `lo .. hi` continue an expression whose
/// first operand is the tag.
pub open spec fn condition_in(b: Seq<Token>, lo: int, hi: int) -> Result<Expr, SyntaxError> {
    match cast_rest(b, hi, Expr::Tag, lo) {
        Ok((e1, p1)) => condition_rest(b, lo, hi, e1, p1),
        Err(x) => Err(x),
    }
}

/// A condition rule after its first operand `e1`, which ends at `p1`.
pub open spec fn condition_rest(b: Seq<Token>, lo: int, hi: int, e1: Expr, p1: int) -> Result<Expr, SyntaxError> {
    match climb(b, hi, e1, p1, Seq::empty(), true, 1) {
        Ok((e, p)) => if p == hi {
            Ok(e)
        } else {
            Err(SyntaxError::BadExpression)
        },
        Err(x) => Err(x),
    }
}

/// The rule of a variant at `p`, and where it ends.
pub open spec fn rule_at(b: Seq<Token>, p: int) -> Result<(RuleDef, int), SyntaxError> {
    let n = b.len() as int;
    if punct_at(b, n, p, '=') && punct_at(b, n, p + 1, '=') {
        let q = sep_from(b, p + 2);
        match expr_in(b, p + 2, q, Seq::empty(), false) {
            Ok(e) => match const_value(e) {
                Some(v) => Ok((RuleDef::Exact(v), q)),
                None => Ok((RuleDef::ExactUser((p + 2) as usize, q as usize), q)),
            },
            Err(_) => if p + 2 < q {
                Ok((RuleDef::ExactUser((p + 2) as usize, q as usize), q))
            } else {
                Err(SyntaxError::BadVariant)
            },
        }
    } else if punct_at(b, n, p, '=') {
        let q1 = value_end(b, p + 1);
        match assign_value(b, p + 1, q1) {
            Ok(a) => if ident_at(b, n, q1, seq!['i', 'f']) {
                let q = sep_from(b, q1 + 1);
                match expr_in(b, q1 + 1, q, Seq::empty(), true) {
                    Ok(c) => Ok((RuleDef::Assign(a, c), q)),
                    Err(x) => Err(x),
                }
            } else {
                Ok((RuleDef::Assign(a, Expr::Lit(1)), q1))
            },
            Err(x) => Err(x),
        }
    } else if ident_at(b, n, p, seq!['_']) {
        Ok((RuleDef::CatchAll, p + 1))
    } else {
        let q = sep_from(b, p);
        match condition_in(b, p, q) {
            Ok(c) => Ok((RuleDef::Condition(c), q)),
            Err(x) => Err(x),
        }
    }
}

/// The type in the parentheses after a variant's name, all of the tokens.
pub open spec fn inner_type(c: Seq<Token>) -> Result<TypeDef, SyntaxError> {
    match parse_type(c, c.len() as int, 0, Seq::empty()) {
        Ok((t, p)) => if p == c.len() {
            Ok(t)
        } else {
            Err(SyntaxError::BadType)
        },
        Err(x) => Err(x),
    }
}

/// A variant at `pos`: attributes, its name, an optional carried type in
/// parentheses, and its rule; and where it ends.
pub open spec fn variant_at(b: Seq<Token>, pos: int) -> Result<(VariantDef, int), SyntaxError> {
    let n = b.len() as int;
    let p0 = skip_attrs(b, pos);
    if !is_ident_at(b, n, p0) {
        Err(SyntaxError::BadVariant)
    } else if is_group_at(b, n, p0 + 1, Delim::Paren) {
        match b[p0 + 1] {
            Token::Group(_, c) => match inner_type(c@) {
                Ok(t) => match rule_at(b, p0 + 2) {
                    Ok((r, q)) => Ok((VariantDef { name: p0 as usize, inner: Some(t), rule: r }, q)),
                    Err(x) => Err(x),
                },
                Err(x) => Err(x),
            },
            _ => Err(SyntaxError::BadVariant),
        }
    } else {
        match rule_at(b, p0 + 1) {
            Ok((r, q)) => Ok((VariantDef { name: p0 as usize, inner: None, rule: r }, q)),
            Err(x) => Err(x),
        }
    }
}

/// The variants of an enumeration body from `pos` on, after `acc`.
pub open spec fn variants_from(b: Seq<Token>, pos: int, acc: Seq<VariantDef>) -> Result<Seq<VariantDef>, SyntaxError>
    decreases b.len() - pos,
{
    if pos < 0 || pos >= b.len() {
        Ok(acc)
    } else {
        match variant_at(b, pos) {
            Ok((v, q)) => {
                let r = skip_seps(b, q);
                if pos < r <= b.len() {
                    variants_from(b, r, acc.push(v))
                } else {
                    Err(SyntaxError::BadVariant)
                }
            },
            Err(x) => Err(x),
        }
    }
}

/// An enumeration definition (`make_enum!`): outer attributes, a
/// visibility, the name, `:` and the tag type, and the braced variants with
/// nothing after them. Yields where the attributes end, the position of
/// the name, the tag type, the position of the body and the variants.
pub open spec fn enum_def(toks: Seq<Token>) -> Result<(int, int, TypeDef, int, Seq<VariantDef>), SyntaxError> {
    let n = toks.len() as int;
    let a = skip_attrs(toks, 0);
    let v = skip_vis(toks, a);
    if is_ident_at(toks, n, v) && punct_at(toks, n, v + 1, ':') {
        match parse_type(toks, n, v + 2, Seq::empty()) {
            Ok((t, p)) => if is_group_at(toks, n, p, Delim::Brace) && p + 1 == n {
                match toks[p] {
                    Token::Group(_, body) => match variants_from(body@, 0, Seq::empty()) {
                        Ok(vs) => Ok((a, v, t, p, vs)),
                        Err(x) => Err(x),
                    },
                    _ => Err(SyntaxError::BadHeader),
                }
            } else {
                Err(SyntaxError::BadHeader)
            },
            Err(x) => Err(x),
        }
    } else {
        Err(SyntaxError::BadHeader)
    }
}


fn sep_from_exec(toks: &Vec<Token>, pos: usize) -> (res: usize)
    ensures
        res as int == sep_from(toks@, pos as int),
        res <= toks@.len(),
        pos <= toks@.len() ==> pos <= res,
    decreases toks@.len() - pos,
{
    let n = toks.len();
    if pos >= n {
        n
    } else if punct_is(toks, n, pos, ',') || punct_is(toks, n, pos, ';') {
        pos
    } else {
        sep_from_exec(toks, pos + 1)
    }
}

fn value_end_exec(toks: &Vec<Token>, pos: usize) -> (res: usize)
    ensures
        res as int == value_end(toks@, pos as int),
        res <= toks@.len(),
        pos <= toks@.len() ==> pos <= res,
    decreases toks@.len() - pos,
{
    let n = toks.len();
    if pos >= n {
        n
    } else if punct_is(toks, n, pos, ',') || punct_is(toks, n, pos, ';') || ident_is(toks, n, pos, &['i', 'f']) {
        pos
    } else {
        value_end_exec(toks, pos + 1)
    }
}

fn const_value_exec(e: &Expr) -> (res: Option<i128>)
    ensures
        res == const_value(*e),
{
    match e {
        Expr::Lit(v) => Some(*v),
        Expr::Bin(op, a, b) => match &**b {
            Expr::Lit(v) => {
                let zero = match &**a {
                    Expr::Lit(z) => *z == 0,
                    _ => false,
                };
                if *op == BinOp::Sub && zero && *v >= 0 {
                    Some(0 - *v)
                } else {
                    None
                }
            },
            _ => None,
        },
        _ => None,
    }
}

fn byte_list_exec(c: &Vec<Token>, pos: usize) -> (res: Option<Vec<u8>>)
    ensures
        match byte_list(c@, pos as int) {
            Some(s) => res is Some && res->0@ == s,
            None => res is None,
        },
    decreases c@.len() - pos,
{
    let n = c.len();
    if pos >= n {
        return Some(Vec::new());
    }
    match &c[pos] {
        Token::Lit(s) => match literal_int(s) {
            Some(v) => {
                if 0 <= v && v <= 255 {
                    if n - pos == 1 {
                        let mut out: Vec<u8> = Vec::new();
                        out.push(v as u8);
                        proof {
                            assert(out@ =~= seq![v as u8]);
                        }
                        Some(out)
                    } else if punct_is(c, n, pos + 1, ',') {
                        match byte_list_exec(c, pos + 2) {
                            Some(rest) => {
                                let mut out: Vec<u8> = Vec::new();
                                out.push(v as u8);
                                let mut rest = rest;
                                out.append(&mut rest);
                                Some(out)
                            },
                            None => None,
                        }
                    } else {
                        None
                    }
                } else {
                    None
                }
            },
            None => None,
        },
        _ => None,
    }
}

/// The bytes of a `vec![..]` list inside its brackets; see `byte_list`.
pub fn byte_list_of(c: &Vec<Token>) -> (res: Option<Vec<u8>>)
    ensures
        match byte_list(c@, 0) {
            Some(s) => res is Some && res->0@ == s,
            None => res is None,
        },
{
    byte_list_exec(c, 0)
}

fn ident1_is(toks: &Vec<Token>, end: usize, i: usize, c: char) -> (res: bool)
    requires
        end <= toks@.len(),
    ensures
        res == ident_at(toks@, end as int, i as int, seq![c]),
{
    if i < end {
        match &toks[i] {
            Token::Ident(s) => {
                let r = s.len() == 1 && s[0] == c;
                proof {
                    if r {
                        assert(s@ =~= seq![c]);
                    }
                }
                r
            },
            _ => false,
        }
    } else {
        false
    }
}

fn assign_value_exec(b: &Vec<Token>, lo: usize, hi: usize) -> (res: Result<AssignDef, SyntaxError>)
    requires
        lo <= hi <= b@.len(),
    ensures
        res == assign_value(b@, lo as int, hi as int),
{
    let n = b.len();
    if hi - lo == 3 && ident_is(b, n, lo, &['v', 'e', 'c']) && punct_is(b, n, lo + 1, '!') && group_is(
        b,
        n,
        lo + 2,
        Delim::Bracket,
    ) {
        match &b[lo + 2] {
            Token::Group(_, c) => if byte_list_exec(c, 0).is_some() {
                Ok(AssignDef::Bytes(lo + 2))
            } else {
                Err(SyntaxError::BadVariant)
            },
            _ => Err(SyntaxError::BadVariant),
        }
    } else {
        let empty: Vec<Vec<char>> = Vec::new();
        proof {
            assert(names_view(empty@) =~= Seq::<Seq<char>>::empty());
        }
        match parse_expr(b, lo, hi, &empty, true) {
            Ok(e) => match e {
                Expr::Tag => Ok(AssignDef::Tag),
                _ => match const_value_exec(&e) {
                    Some(v) => Ok(AssignDef::Int(v)),
                    None => Ok(AssignDef::User(lo, hi)),
                },
            },
            Err(_) => if lo < hi {
                Ok(AssignDef::User(lo, hi))
            } else {
                Err(SyntaxError::BadVariant)
            },
        }
    }
}

fn condition_in_exec(b: &Vec<Token>, lo: usize, hi: usize) -> (res: Result<Expr, SyntaxError>)
    requires
        lo <= hi <= b@.len(),
    ensures
        res == condition_in(b@, lo as int, hi as int),
{
    let empty: Vec<Vec<char>> = Vec::new();
    proof {
        assert(names_view(empty@) =~= Seq::<Seq<char>>::empty());
    }
    let (e1, p1) = match cast_rest_exec(b, hi, Expr::Tag, lo) {
        Ok(r) => r,
        Err(x) => {
            return Err(x);
        },
    };
    match climb_exec(b, hi, e1, p1, &empty, true, 1) {
        Ok((e, p)) => if p == hi {
            Ok(e)
        } else {
            Err(SyntaxError::BadExpression)
        },
        Err(x) => Err(x),
    }
}

fn rule_at_exec(b: &Vec<Token>, p: usize) -> (res: Result<(RuleDef, usize), SyntaxError>)
    requires
        p <= b@.len(),
    ensures
        match rule_at(b@, p as int) {
            Ok((r, q)) => res is Ok && res->Ok_0.0 == r && res->Ok_0.1 as int == q && p <= q <= b@.len(),
            Err(x) => res == Err::<(RuleDef, usize), SyntaxError>(x),
        },
{
    let n = b.len();
    let empty: Vec<Vec<char>> = Vec::new();
    proof {
        assert(names_view(empty@) =~= Seq::<Seq<char>>::empty());
    }
    if n - p > 1 && punct_is(b, n, p, '=') && punct_is(b, n, p + 1, '=') {
        let q = sep_from_exec(b, p + 2);
        match parse_expr(b, p + 2, q, &empty, false) {
            Ok(e) => match const_value_exec(&e) {
                Some(v) => Ok((RuleDef::Exact(v), q)),
                None => Ok((RuleDef::ExactUser(p + 2, q), q)),
            },
            Err(_) => if p + 2 < q {
                Ok((RuleDef::ExactUser(p + 2, q), q))
            } else {
                Err(SyntaxError::BadVariant)
            },
        }
    } else if punct_is(b, n, p, '=') {
        let q1 = value_end_exec(b, p + 1);
        match assign_value_exec(b, p + 1, q1) {
            Ok(a) => if ident_is(b, n, q1, &['i', 'f']) {
                let q = sep_from_exec(b, q1 + 1);
                match parse_expr(b, q1 + 1, q, &empty, true) {
                    Ok(c) => Ok((RuleDef::Assign(a, c), q)),
                    Err(x) => Err(x),
                }
            } else {
                Ok((RuleDef::Assign(a, Expr::Lit(1)), q1))
            },
            Err(x) => Err(x),
        }
    } else if ident1_is(b, n, p, '_') {
        Ok((RuleDef::CatchAll, p + 1))
    } else {
        let q = sep_from_exec(b, p);
        match condition_in_exec(b, p, q) {
            Ok(c) => Ok((RuleDef::Condition(c), q)),
            Err(x) => Err(x),
        }
    }
}

fn inner_type_exec(c: &Vec<Token>) -> (res: Result<TypeDef, SyntaxError>)
    ensures
        res == inner_type(c@),
{
    let empty: Vec<Vec<char>> = Vec::new();
    proof {
        assert(names_view(empty@) =~= Seq::<Seq<char>>::empty());
    }
    match parse_type_at(c, c.len(), 0, &empty) {
        Ok((t, p)) => if p == c.len() {
            Ok(t)
        } else {
            Err(SyntaxError::BadType)
        },
        Err(x) => Err(x),
    }
}

fn variant_at_exec(b: &Vec<Token>, pos: usize) -> (res: Result<(VariantDef, usize), SyntaxError>)
    requires
        pos < b@.len(),
    ensures
        match variant_at(b@, pos as int) {
            Ok((v, q)) => res is Ok && res->Ok_0.0 == v && res->Ok_0.1 as int == q && pos < q <= b@.len(),
            Err(x) => res == Err::<(VariantDef, usize), SyntaxError>(x),
        },
{
    let n = b.len();
    let p0 = skip_attrs_exec(b, pos);
    if !any_ident_is(b, n, p0) {
        return Err(SyntaxError::BadVariant);
    }
    if n - p0 > 1 && group_is(b, n, p0 + 1, Delim::Paren) {
        match &b[p0 + 1] {
            Token::Group(_, c) => match inner_type_exec(c) {
                Ok(t) => match rule_at_exec(b, p0 + 2) {
                    Ok((r, q)) => Ok((VariantDef { name: p0, inner: Some(t), rule: r }, q)),
                    Err(x) => Err(x),
                },
                Err(x) => Err(x),
            },
            _ => Err(SyntaxError::BadVariant),
        }
    } else {
        match rule_at_exec(b, p0 + 1) {
            Ok((r, q)) => Ok((VariantDef { name: p0, inner: None, rule: r }, q)),
            Err(x) => Err(x),
        }
    }
}

fn variants_from_exec(b: &Vec<Token>, pos: usize, acc: &mut Vec<VariantDef>) -> (res: Result<(), SyntaxError>)
    ensures
        match variants_from(b@, pos as int, old(acc)@) {
            Ok(vs) => res is Ok && final(acc)@ == vs,
            Err(x) => res == Err::<(), SyntaxError>(x),
        },
    decreases b@.len() - pos,
{
    if pos >= b.len() {
        return Ok(());
    }
    match variant_at_exec(b, pos) {
        Ok((v, q)) => {
            let r = skip_seps_exec(b, q);
            acc.push(v);
            variants_from_exec(b, r, acc)
        },
        Err(x) => Err(x),
    }
}

/// An enumeration definition read from the tokens of `make_enum!`.
#[derive(Debug)]
pub struct EnumDef {
    /// The outer attributes are the tokens before this position.
    pub attrs_end: usize,
    /// The position of the enumeration's name.
    pub name: usize,
    /// The type of the tag.
    pub repr: TypeDef,
    /// The position of the braced body.
    pub body: usize,
    pub variants: Vec<VariantDef>,
}

/// Reads an enumeration definition; see `enum_def`.
pub fn parse_enum(toks: &Vec<Token>) -> (res: Result<EnumDef, SyntaxError>)
    ensures
        match enum_def(toks@) {
            Ok((a, v, t, p, vs)) => res is Ok && res->Ok_0.attrs_end == a && res->Ok_0.name == v && res->Ok_0.repr
                == t && res->Ok_0.body == p && res->Ok_0.variants@ == vs,
            Err(x) => res == Err::<EnumDef, SyntaxError>(x),
        },
{
    let n = toks.len();
    let a = skip_attrs_exec(toks, 0);
    let v = skip_vis_exec(toks, a);
    let empty: Vec<Vec<char>> = Vec::new();
    proof {
        assert(names_view(empty@) =~= Seq::<Seq<char>>::empty());
    }
    if n - v > 1 && any_ident_is(toks, n, v) && punct_is(toks, n, v + 1, ':') {
        match parse_type_at(toks, n, v + 2, &empty) {
            Ok((t, p)) => if p < n && n - p == 1 && group_is(toks, n, p, Delim::Brace) {
                match &toks[p] {
                    Token::Group(_, body) => {
                        let mut vs: Vec<VariantDef> = Vec::new();
                        proof {
                            assert(vs@ =~= Seq::<VariantDef>::empty());
                        }
                        match variants_from_exec(body, 0, &mut vs) {
                            Ok(()) => Ok(EnumDef { attrs_end: a, name: v, repr: t, body: p, variants: vs }),
                            Err(x) => Err(x),
                        }
                    },
                    _ => Err(SyntaxError::BadHeader),
                }
            } else {
                Err(SyntaxError::BadHeader)
            },
            Err(x) => Err(x),
        }
    } else {
        Err(SyntaxError::BadHeader)
    }
}

} // verus!
