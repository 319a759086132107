//! How a definition names field types.

use vstd::prelude::*;

verus! {

/// What the first identifier of a field type names.
#[derive(Clone, Copy, Debug, PartialEq, Eq, Structural)]
pub enum TypeKeyword {
    Bool,
    USize,
    /// `uN` with N parsed as a `u8`.
    UInt(u8),
    /// `iN` with N parsed as a `u8`.
    Int(u8),
    Vec,
    Option,
    Box,
    CStr,
    /// Anything else: a custom type.
    Other,
}

pub open spec fn is_digit(c: char) -> bool {
    '0' <= c <= '9'
}

/// The value of a string of decimal digits.
pub open spec fn decimal(s: Seq<char>) -> int
    decreases s.len(),
{
    if s.len() == 0 {
        0
    } else {
        decimal(s.drop_last()) * 10 + (s.last() as int - '0' as int)
    }
}

/// The characters after an optional leading `+`.
pub open spec fn unsigned_digits(s: Seq<char>) -> Seq<char> {
    if s.len() > 0 && s[0] == '+' {
        s.drop_first()
    } else {
        s
    }
}

pub open spec fn all_digits(d: Seq<char>) -> bool {
    forall|i: int| 0 <= i < d.len() ==> is_digit(#[trigger] d[i])
}

/// `str::parse::<u8>`: an optional `+`, then at least one decimal digit,
/// with a value below 256.
pub open spec fn parse_u8(s: Seq<char>) -> Option<u8> {
    let d = unsigned_digits(s);
    if d.len() > 0 && all_digits(d) && decimal(d) <= 255 {
        Some(decimal(d) as u8)
    } else {
        None
    }
}

pub open spec fn named_keyword(s: Seq<char>) -> TypeKeyword {
    if s == seq!['V', 'e', 'c'] {
        TypeKeyword::Vec
    } else if s == seq!['O', 'p', 't', 'i', 'o', 'n'] {
        TypeKeyword::Option
    } else if s == seq!['B', 'o', 'x'] {
        TypeKeyword::Box
    } else if s == seq!['C', 'S', 't', 'r'] {
        TypeKeyword::CStr
    } else {
        TypeKeyword::Other
    }
}

/// How `make_struct!` reads a type identifier: `bool`, `usize`, `u` or `i`
/// followed by a bit count, or one of the named types.
pub open spec fn type_keyword_of(s: Seq<char>) -> TypeKeyword {
    if s == seq!['b', 'o', 'o', 'l'] {
        TypeKeyword::Bool
    } else if s == seq!['u', 's', 'i', 'z', 'e'] {
        TypeKeyword::USize
    } else if s.len() > 1 && s[0] == 'u' {
        match parse_u8(s.drop_first()) {
            Some(n) => TypeKeyword::UInt(n),
            None => named_keyword(s),
        }
    } else if s.len() > 1 && s[0] == 'i' {
        match parse_u8(s.drop_first()) {
            Some(n) => TypeKeyword::Int(n),
            None => named_keyword(s),
        }
    } else {
        named_keyword(s)
    }
}

fn chars_of(s: &str) -> (res: Vec<char>)
    ensures
        res@ == s@,
{
    let mut out: Vec<char> = Vec::new();
    let ghost cs = s@;
    for c in it: s.chars()
        invariant
            it.seq() == cs,
            out@ == cs.take(it.index()),
    {
        proof {
            assert(c == cs[it.index()]);
        }
        out.push(c);
        proof {
            assert(out@ =~= cs.take(it.index() + 1));
        }
    }
    proof {
        assert(cs.take(cs.len() as int) =~= cs);
    }
    out
}

pub fn chars_equal(v: &Vec<char>, lit: &[char]) -> (res: bool)
    ensures
        res == (v@ == lit@),
{
    if v.len() != lit.len() {
        return false;
    }
    let mut i: usize = 0;
    while i < v.len()
        invariant
            v@.len() == lit@.len(),
            i <= v@.len(),
            forall|k: int| 0 <= k < i ==> v@[k] == lit@[k],
        decreases v@.len() - i,
    {
        if v[i] != lit[i] {
            return false;
        }
        i = i + 1;
    }
    proof {
        assert(v@ =~= lit@);
    }
    true
}

proof fn lemma_decimal_nonneg(s: Seq<char>)
    requires
        forall|i: int| 0 <= i < s.len() ==> is_digit(#[trigger] s[i]),
    ensures
        0 <= decimal(s),
    decreases s.len(),
{
    if s.len() > 0 {
        lemma_decimal_nonneg(s.drop_last());
        assert(is_digit(s[s.len() - 1]));
    }
}

proof fn lemma_decimal_grows(s: Seq<char>, k: int)
    requires
        0 <= k <= s.len(),
        forall|i: int| 0 <= i < s.len() ==> is_digit(#[trigger] s[i]),
    ensures
        0 <= decimal(s.take(k)) <= decimal(s),
    decreases s.len() - k,
{
    lemma_decimal_nonneg(s.take(k));
    if k < s.len() {
        lemma_decimal_grows(s, k + 1);
        assert(s.take(k + 1).drop_last() =~= s.take(k));
        assert(is_digit(s[k]));
    } else {
        assert(s.take(k) =~= s);
    }
}

/// `str::parse::<u8>` on the characters `v[from..]`; see `parse_u8`.
fn parse_u8_from(v: &Vec<char>, from: usize) -> (res: Option<u8>)
    requires
        from <= v@.len(),
    ensures
        res == parse_u8(v@.skip(from as int)),
{
    let ghost s = v@.skip(from as int);
    let mut start = from;
    if start < v.len() && v[start] == '+' {
        start = start + 1;
    }
    let ghost d = v@.skip(start as int);
    proof {
        if from < v@.len() && v@[from as int] == '+' {
            assert(d =~= s.drop_first());
        } else {
            assert(d =~= s);
        }
    }
    if start >= v.len() {
        return None;
    }
    let mut val: u64 = 0;
    let mut i = start;
    while i < v.len()
        invariant
            start <= i <= v@.len(),
            start < v@.len(),
            s == v@.skip(from as int),
            d == unsigned_digits(s),
            d == v@.skip(start as int),
            forall|k: int| 0 <= k < i - start ==> is_digit(#[trigger] d[k]),
            val as int == decimal(d.take(i - start)),
            val <= 255,
        decreases v@.len() - i,
    {
        let c = v[i];
        assert(d[i - start] == v@[i as int]);
        if c < '0' || c > '9' {
            proof {
                assert(!is_digit(d[i - start]));
                assert(!all_digits(d));
            }
            return None;
        }
        let digit = (c as u32 - '0' as u32) as u64;
        proof {
            assert(d.take(i - start + 1).drop_last() =~= d.take(i - start));
            assert(d.take(i - start + 1).last() == c);
        }
        val = val * 10 + digit;
        i = i + 1;
        if val > 255 {
            if i < v.len() {
                let mut m = i;
                while m < v.len()
                    invariant
                        start < i <= m <= v@.len(),
                        s == v@.skip(from as int),
                        d == unsigned_digits(s),
                        d == v@.skip(start as int),
                        val > 255,
                        val as int == decimal(d.take(i - start)),
                        forall|k: int| 0 <= k < m - start ==> is_digit(#[trigger] d[k]),
                    decreases v@.len() - m,
                {
                    assert(d[m - start] == v@[m as int]);
                    if v[m] < '0' || v[m] > '9' {
                        proof {
                            assert(!is_digit(d[m - start]));
                            assert(!all_digits(d));
                        }
                        return None;
                    }
                    m = m + 1;
                }
                proof {
                    lemma_decimal_grows(d, i - start);
                }
            } else {
                proof {
                    assert(d.take(i - start) =~= d);
                }
            }
            return None;
        }
    }
    proof {
        assert(d.take(i - start) =~= d);
    }
    Some(val as u8)
}

/// Classifies the identifier that starts a field type the way `make_struct!`
/// reads it; see `type_keyword_of`.
pub fn type_keyword(ident: &str) -> (res: TypeKeyword)
    ensures
        res == type_keyword_of(ident@),
{
    let v = chars_of(ident);
    type_keyword_chars(&v)
}

/// Classifies an identifier given by its characters; see `type_keyword_of`.
pub fn type_keyword_chars(v: &Vec<char>) -> (res: TypeKeyword)
    ensures
        res == type_keyword_of(v@),
{
    proof {
        assert(v@.skip(1) =~= v@.drop_first());
    }
    if chars_equal(v, &['b', 'o', 'o', 'l']) {
        return TypeKeyword::Bool;
    }
    if chars_equal(v, &['u', 's', 'i', 'z', 'e']) {
        return TypeKeyword::USize;
    }
    if v.len() > 1 && v[0] == 'u' {
        if let Some(n) = parse_u8_from(v, 1) {
            return TypeKeyword::UInt(n);
        }
    } else if v.len() > 1 && v[0] == 'i' {
        if let Some(n) = parse_u8_from(v, 1) {
            return TypeKeyword::Int(n);
        }
    }
    if chars_equal(v, &['V', 'e', 'c']) {
        TypeKeyword::Vec
    } else if chars_equal(v, &['O', 'p', 't', 'i', 'o', 'n']) {
        TypeKeyword::Option
    } else if chars_equal(v, &['B', 'o', 'x']) {
        TypeKeyword::Box
    } else if chars_equal(v, &['C', 'S', 't', 'r']) {
        TypeKeyword::CStr
    } else {
        TypeKeyword::Other
    }
}

} // verus!
