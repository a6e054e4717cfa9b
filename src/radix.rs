//! Conversion of numerals between bases.
use crate::text::{all_digits, chars_of, digit_char, digit_str, digits_up_to, digits_value};
use vstd::arithmetic::div_mod::lemma_div_decreases;
use vstd::prelude::*;
use vstd::string::*;

verus! {

/// The value of `c` as a digit in bases up to 36: `0`-`9`, then `a`-`z` or
/// `A`-`Z` for 10 to 35; `None` for any other character.
pub open spec fn radix_digit(c: char) -> Option<nat> {
    if '0' <= c && c <= '9' {
        Some(((c as u32) - ('0' as u32)) as nat)
    } else if 'a' <= c && c <= 'z' {
        Some(((c as u32) - ('a' as u32) + 10) as nat)
    } else if 'A' <= c && c <= 'Z' {
        Some(((c as u32) - ('A' as u32) + 10) as nat)
    } else {
        None
    }
}

/// Every character of `s` is a digit below `base`.
pub open spec fn is_radix_text(s: Seq<char>, base: nat) -> bool {
    forall|i: int| 0 <= i < s.len() ==> ((#[trigger] radix_digit(s[i])) matches Some(v) && v < base)
}

/// The value of the digits `s` in `base`.
pub open spec fn radix_value(s: Seq<char>, base: nat) -> nat
    decreases s.len(),
{
    if s.len() == 0 {
        0
    } else {
        radix_value(s.drop_last(), base) * base + match radix_digit(s.last()) {
            Some(v) => v,
            None => 0,
        }
    }
}

/// The digits of `s` without the optional leading `+` that
/// `u32::from_str_radix` accepts.
pub open spec fn unsigned_digits(s: Seq<char>) -> Seq<char> {
    if s.len() > 0 && s[0] == '+' {
        s.drop_first()
    } else {
        s
    }
}

/// `s` writes a `u32` in `base` as `u32::from_str_radix` reads one.
pub open spec fn writes_u32_in(s: Seq<char>, base: nat) -> bool {
    let d = unsigned_digits(s);
    d.len() > 0 && is_radix_text(d, base) && radix_value(d, base) <= u32::MAX
}

/// The index of the first `(` in `s`, or its length when there is none.
pub open spec fn paren_index(s: Seq<char>) -> int
    decreases s.len(),
{
    if s.len() == 0 {
        0
    } else if s[0] == '(' {
        0
    } else {
        1 + paren_index(s.drop_first())
    }
}

/// The numeral of a text `"digits(base)"`, or the whole text.
pub open spec fn numeral_part(s: Seq<char>) -> Seq<char> {
    s.subrange(0, paren_index(s))
}

/// The base of a text `"digits(base)"`: the decimal text between `(` and
/// the last character; 10 when there is no `(`.
pub open spec fn source_base(s: Seq<char>) -> nat {
    if paren_index(s) < s.len() {
        digits_value(unsigned_digits(s.subrange(paren_index(s) + 1, s.len() - 1))) as nat
    } else {
        10
    }
}

/// `s` is a numeral with an optional base in parentheses that a
/// conversion can read: a base from 2 to 36 written in decimal, and digits
/// below it whose value fits in `u32`.
pub open spec fn is_numeral_text(s: Seq<char>) -> bool {
    &&& paren_index(s) < s.len() ==> {
        let b = unsigned_digits(s.subrange(paren_index(s) + 1, s.len() - 1));
        paren_index(s) + 2 <= s.len() && all_digits(b)
    }
    &&& 2 <= source_base(s) <= 36
    &&& writes_u32_in(numeral_part(s), source_base(s))
}

/// The representation of `n` in `base`, without leading zeros.
pub open spec fn in_base(n: nat, base: nat) -> Seq<char>
    decreases n,
    via in_base_decreases
{
    if base < 2 || n < base {
        seq![digit_char(n)]
    } else {
        in_base(n / base, base).push(digit_char(n % base))
    }
}

#[via_fn]
proof fn in_base_decreases(n: nat, base: nat) {
    if !(base < 2 || n < base) {
        lemma_div_decreases(n as int, base as int);
    }
}

proof fn lemma_paren_index_bounds(s: Seq<char>)
    ensures
        0 <= paren_index(s) <= s.len(),
        paren_index(s) < s.len() ==> s[paren_index(s)] == '(',
        forall|i: int| 0 <= i < paren_index(s) ==> s[i] != '(',
    decreases s.len(),
{
    if s.len() > 0 && s[0] != '(' {
        lemma_paren_index_bounds(s.drop_first());
        assert forall|i: int| 0 <= i < paren_index(s) implies s[i] != '(' by {
            if i > 0 {
                assert(s[i] == s.drop_first()[i - 1]);
            }
        }
    }
}

fn find_paren(s: &Vec<char>) -> (r: usize)
    ensures
        r == paren_index(s@),
        r <= s.len(),
{
    proof {
        lemma_paren_index_bounds(s@);
    }
    let mut i: usize = 0;
    while i < s.len() && s[i] != '('
        invariant
            i <= s.len(),
            i <= paren_index(s@),
            0 <= paren_index(s@) <= s@.len(),
            paren_index(s@) < s@.len() ==> s@[paren_index(s@)] == '(',
        decreases s.len() - i,
    {
        i = i + 1;
    }
    i
}

fn digit_of(c: char) -> (r: Option<u32>)
    ensures
        r matches Some(v) ==> radix_digit(c) == Some(v as nat),
        r is None ==> radix_digit(c) is None,
{
    if '0' <= c && c <= '9' {
        Some(c as u32 - '0' as u32)
    } else if 'a' <= c && c <= 'z' {
        Some(c as u32 - 'a' as u32 + 10)
    } else if 'A' <= c && c <= 'Z' {
        Some(c as u32 - 'A' as u32 + 10)
    } else {
        None
    }
}

/// The value of the numeral `s[from..to]` in `base`, which the caller has
/// checked to be a `u32`.
fn read_radix(s: &Vec<char>, from: usize, to: usize, base: u32) -> (r: u32)
    requires
        from <= to <= s.len(),
        2 <= base <= 36,
        is_radix_text(s@.subrange(from as int, to as int), base as nat),
        radix_value(s@.subrange(from as int, to as int), base as nat) <= u32::MAX,
    ensures
        r == radix_value(s@.subrange(from as int, to as int), base as nat),
{
    let mut value: u64 = 0;
    let mut i: usize = from;
    assert(s@.subrange(from as int, from as int) =~= Seq::<char>::empty());
    while i < to
        invariant
            from <= i <= to <= s.len(),
            2 <= base <= 36,
            is_radix_text(s@.subrange(from as int, to as int), base as nat),
            radix_value(s@.subrange(from as int, to as int), base as nat) <= u32::MAX,
            value == radix_value(s@.subrange(from as int, i as int), base as nat),
        decreases to - i,
    {
        let ghost prefix = s@.subrange(from as int, i as int);
        assert(s@.subrange(from as int, i + 1).drop_last() =~= prefix);
        assert(s@.subrange(from as int, to as int)[i - from] == s@[i as int]);
        let d = match digit_of(s[i]) {
            Some(v) => v,
            None => 0,
        };
        proof {
            lemma_radix_prefix_bound(s@.subrange(from as int, to as int), (i + 1 - from) as nat, base as nat);
            assert(s@.subrange(from as int, to as int).subrange(0, (i + 1 - from) as int) =~= s@.subrange(
                from as int,
                i + 1,
            ));
        }
        value = value * base as u64 + d as u64;
        i = i + 1;
    }
    value as u32
}

proof fn lemma_radix_prefix_bound(s: Seq<char>, k: nat, base: nat)
    requires
        k <= s.len(),
        base >= 1,
    ensures
        radix_value(s.subrange(0, k as int), base) <= radix_value(s, base),
    decreases s.len() - k,
{
    if k < s.len() {
        lemma_radix_prefix_bound(s, k + 1, base);
        let p = s.subrange(0, k as int);
        let q = s.subrange(0, k as int + 1);
        assert(q.drop_last() =~= p);
        assert(radix_value(q, base) >= radix_value(p, base)) by (nonlinear_arith)
            requires
                radix_value(q, base) >= radix_value(p, base) * base,
                base >= 1,
        ;
    } else {
        assert(s.subrange(0, k as int) =~= s);
    }
}

/// Appends the representation of `n` in `base` to `r`.
fn append_in_base(r: &mut String, n: u32, base: u32)
    requires
        2 <= base <= 16,
    ensures
        final(r)@ == old(r)@ + in_base(n as nat, base as nat),
    decreases n,
{
    if n >= base {
        proof {
            lemma_div_decreases(n as int, base as int);
        }
        append_in_base(r, n / base, base);
    }
    r.append(digit_str((n % base) as u64));
    proof {
        if n < base {
            vstd::arithmetic::div_mod::lemma_small_mod(n as nat, base as nat);
            assert(in_base(n as nat, base as nat) == seq![digit_char(n as nat)]);
        } else {
            assert(in_base(n as nat, base as nat) == in_base((n / base) as nat, base as nat).push(
                digit_char((n % base) as nat),
            ));
        }
    }
    assert(final(r)@ =~= old(r)@ + in_base(n as nat, base as nat));
}

/// Converts the numeral `num_str`, written `"digits(base)"` or, in base 10,
/// as bare digits, to base `to_base`, with lower-case digits beyond 9.
pub fn convert_base(num_str: &str, to_base: u32) -> (r: String)
    requires
        is_numeral_text(num_str@),
        2 <= to_base <= 16,
    ensures
        r@ == in_base(radix_value(unsigned_digits(numeral_part(num_str@)), source_base(num_str@)),
            to_base as nat),
{
    let s = chars_of(num_str);
    let index = find_paren(&s);
    let from_base: u32 = if index < s.len() {
        let start = if s[index + 1] == '+' { index + 2 } else { index + 1 };
        proof {
            assert(s@.subrange(index + 1, s.len() - 1).drop_first() =~= s@.subrange(index + 2, s.len() - 1));
        }
        match digits_up_to(&s, start, s.len() - 1, 36) {
            Some(v) => v as u32,
            None => 0,
        }
    } else {
        10
    };
    assert(from_base == source_base(s@));
    let ghost part = numeral_part(s@);
    let start: usize = if index > 0 && s[0] == '+' { 1 } else { 0 };
    assert(unsigned_digits(part) =~= s@.subrange(start as int, index as int));
    let value = read_radix(&s, start, index, from_base);
    let mut out = String::new();
    append_in_base(&mut out, value, to_base);
    assert(out@ =~= in_base(value as nat, to_base as nat));
    out
}

} // verus!
