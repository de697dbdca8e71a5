//! Strings as sequences of characters: conversion, numerals and joining.
use vstd::prelude::*;

verus! {

/// `String::push` appends one character at the end of the string.
pub assume_specification[ String::push ](s: &mut String, c: char)
    ensures
        final(s)@ == old(s)@.push(c),
;

/// The characters of `s`, in order.
pub fn chars_of(s: &str) -> (r: Vec<char>)
    ensures
        r@ == s@,
{
    let mut r: Vec<char> = Vec::new();
    for c in it: s.chars()
        invariant
            it.seq() == s@,
            r@ == s@.take(it.index() as int),
    {
        r.push(c);
    }
    r
}

/// The string made of `chars`.
pub fn string_of(chars: &[char]) -> (r: String)
    ensures
        r@ == chars@,
{
    let mut r = String::new();
    for i in 0..chars.len()
        invariant
            r@ == chars@.take(i as int),
    {
        r.push(chars[i]);
    }
    r
}

/// Whether `chars` spell `lit`.
pub fn spells(chars: &[char], lit: &str) -> (r: bool)
    ensures
        r == (chars@ == lit@),
{
    let want = chars_of(lit);
    if chars.len() != want.len() {
        return false;
    }
    for i in 0..chars.len()
        invariant
            chars@.len() == want@.len(),
            want@ == lit@,
            forall|k: int| 0 <= k < i ==> chars@[k] == want@[k],
    {
        if chars[i] != want[i] {
            return false;
        }
    }
    assert(chars@ =~= lit@);
    true
}

/// The digit `d` in lower case, for `d < 16`.
pub open spec fn digit_char(d: nat) -> char {
    if d < 10 {
        (48 + d) as char
    } else {
        (87 + d) as char
    }
}

/// The numeral of `n` in base `radix`, without leading zeros.
pub open spec fn numeral(n: nat, radix: nat) -> Seq<char>
    decreases n,
{
    if radix < 2 || n < radix {
        seq![digit_char(n)]
    } else {
        proof {
            assert(n / radix < n) by (nonlinear_arith)
                requires
                    n >= radix >= 2,
            ;
        }
        numeral(n / radix, radix).push(digit_char(n % radix))
    }
}

/// The decimal numeral of `n`.
pub open spec fn decimal(n: nat) -> Seq<char> {
    numeral(n, 10)
}

/// Appends the numeral of `n` in base `radix`.
pub fn push_numeral(out: &mut String, n: u64, radix: u64)
    requires
        2 <= radix <= 16,
    ensures
        final(out)@ == old(out)@ + numeral(n as nat, radix as nat),
    decreases n,
{
    if n >= radix {
        assert(n / radix < n) by (nonlinear_arith)
            requires
                n >= radix >= 2,
        ;
        push_numeral(out, n / radix, radix);
    }
    proof {
        if n < radix {
            vstd::arithmetic::div_mod::lemma_small_mod(n as nat, radix as nat);
        }
    }
    let d: u64 = n % radix;
    let c: char = if d < 10 {
        (48 + d as u8) as char
    } else {
        (87 + d as u8) as char
    };
    out.push(c);
    assert(out@ =~= old(out)@ + numeral(n as nat, radix as nat));
}

/// The value of the digit `c` in base `radix`, in either case, if it is one.
pub open spec fn digit_value(c: char, radix: nat) -> Option<nat> {
    let d = if '0' <= c && c <= '9' {
        (c as nat - 48) as nat
    } else if 'a' <= c && c <= 'f' {
        (c as nat - 87) as nat
    } else if 'A' <= c && c <= 'F' {
        (c as nat - 55) as nat
    } else {
        16
    };
    if d < radix && d < 16 {
        Some(d)
    } else {
        None
    }
}

/// The value of a string of digits in base `radix`; the empty string counts zero.
pub open spec fn digits_value(s: Seq<char>, radix: nat) -> Option<nat>
    decreases s.len(),
{
    if s.len() == 0 {
        Some(0)
    } else {
        match (digits_value(s.drop_last(), radix), digit_value(s.last(), radix)) {
            (Some(v), Some(d)) => Some(v * radix + d),
            _ => None,
        }
    }
}

/// Every character of a digit string is a digit.
pub proof fn lemma_digits_all(s: Seq<char>, radix: nat, i: int)
    requires
        0 <= i < s.len(),
    ensures
        digits_value(s, radix) is Some ==> digit_value(s[i], radix) is Some,
    decreases s.len(),
{
    if i < s.len() - 1 {
        lemma_digits_all(s.drop_last(), radix, i);
    }
}

/// The number that `s` writes in base `radix`: an optional `+`, then one or more
/// digits, of a value of at most `max`.
pub open spec fn number(s: Seq<char>, radix: nat, max: nat) -> Option<nat> {
    let digits = if s.len() > 0 && s[0] == '+' {
        s.skip(1)
    } else {
        s
    };
    if digits.len() == 0 {
        None
    } else {
        match digits_value(digits, radix) {
            Some(v) => if v <= max {
                Some(v)
            } else {
                None
            },
            None => None,
        }
    }
}

fn digit_of(c: char, radix: u64) -> (r: Option<u64>)
    requires
        radix <= 16,
    ensures
        r == match digit_value(c, radix as nat) {
            Some(d) => Some(d as u64),
            None => None,
        },
        r matches Some(d) ==> d < radix,
{
    let d: u64 = if '0' <= c && c <= '9' {
        c as u64 - 48
    } else if 'a' <= c && c <= 'f' {
        c as u64 - 87
    } else if 'A' <= c && c <= 'F' {
        c as u64 - 55
    } else {
        16
    };
    if d < radix {
        Some(d)
    } else {
        None
    }
}

/// A string of digits is worth at least as much as any prefix of it.
proof fn lemma_prefix_value(s: Seq<char>, k: int, radix: nat)
    requires
        0 <= k <= s.len(),
        radix >= 1,
    ensures
        digits_value(s, radix) matches Some(v) ==> (digits_value(s.take(k), radix) matches Some(w)
            && w <= v),
    decreases s.len() - k,
{
    if k == s.len() {
        assert(s.take(k) =~= s);
    } else {
        lemma_prefix_value(s, k + 1, radix);
        assert(s.take(k + 1).drop_last() =~= s.take(k));
        if let Some(w) = digits_value(s.take(k), radix) {
            assert(w * radix >= w) by (nonlinear_arith)
                requires
                    radix >= 1,
            ;
        }
    }
}

/// Reads the number that `chars` write in base `radix`, see [`number`].
pub fn parse_number(chars: &[char], radix: u64, max: u64) -> (r: Option<u64>)
    requires
        1 <= radix <= 16,
    ensures
        r == match number(chars@, radix as nat, max as nat) {
            Some(v) => Some(v as u64),
            None => None,
        },
{
    let start: usize = if chars.len() > 0 && chars[0] == '+' {
        1
    } else {
        0
    };
    if start == chars.len() {
        return None;
    }
    let ghost digits = chars@.skip(start as int);
    assert(chars@.skip(0) =~= chars@);
    let mut v: u64 = 0;
    for i in start..chars.len()
        invariant
            1 <= radix <= 16,
            start < chars@.len(),
            digits == chars@.skip(start as int),
            number(chars@, radix as nat, max as nat) == match digits_value(digits, radix as nat) {
                Some(v) => if v <= max {
                    Some(v)
                } else {
                    None
                },
                None => None,
            },
            v <= max,
            digits_value(digits.take(i - start), radix as nat) == Some(v as nat),
    {
        let ghost next = digits.take(i - start + 1);
        proof {
            assert(next.drop_last() =~= digits.take(i - start));
            assert(next.last() == chars@[i as int]);
            lemma_prefix_value(digits, i - start + 1, radix as nat);
        }
        match digit_of(chars[i], radix) {
            None => {
                return None;
            },
            Some(d) => {
                assert(v * radix + d <= 0xffff_ffff_ffff_ffff * 16 + 15) by (nonlinear_arith)
                    requires
                        v <= 0xffff_ffff_ffff_ffff,
                        radix <= 16,
                        d < radix,
                ;
                let w: u128 = v as u128 * radix as u128 + d as u128;
                if w > max as u128 {
                    return None;
                }
                v = w as u64;
            },
        }
    }
    assert(digits.take(digits.len() as int) =~= digits);
    Some(v)
}

/// The texts of `list` in order, with `sep` between neighbours.
pub open spec fn joined(list: Seq<Seq<char>>, sep: Seq<char>) -> Seq<char>
    decreases list.len(),
{
    if list.len() == 0 {
        Seq::empty()
    } else {
        let front = joined(list.drop_last(), sep);
        (if list.len() > 1 {
            front + sep
        } else {
            front
        }) + list.last()
    }
}

/// The contents of a sequence of strings.
pub open spec fn contents(v: Seq<String>) -> Seq<Seq<char>> {
    v.map_values(|s: String| s@)
}

/// The texts of `list` in order, with `sep` between neighbours.
pub fn join(list: &[String], sep: &str) -> (r: String)
    ensures
        r@ == joined(contents(list@), sep@),
{
    let mut r = String::new();
    let ghost all = contents(list@);
    for i in 0..list.len()
        invariant
            all == contents(list@),
            r@ == joined(all.take(i as int), sep@),
    {
        assert(all.take(i + 1).drop_last() =~= all.take(i as int));
        if i > 0 {
            r.append(sep);
        }
        r.append(list[i].as_str());
        assert(r@ =~= joined(all.take(i + 1), sep@));
    }
    assert(all.take(all.len() as int) =~= all);
    r
}

/// The sixteen digits, in both cases.
pub open spec fn digit_tables() -> (Seq<char>, Seq<char>) {
    (
        seq!['0', '1', '2', '3', '4', '5', '6', '7', '8', '9', 'a', 'b', 'c', 'd', 'e', 'f'],
        seq!['0', '1', '2', '3', '4', '5', '6', '7', '8', '9', 'A', 'B', 'C', 'D', 'E', 'F'],
    )
}

/// Digits are written in lower case and read in either case, each for its place in the table, and
/// no other character is a digit.
pub proof fn law_digits_are_those_of_the_table(c: char, radix: nat, d: nat)
    requires
        radix <= 16,
    ensures
        d < 16 ==> digit_char(d) == digit_tables().0[d as int],
        digit_value(c, radix) == Some(d) <==> d < radix && (c == digit_tables().0[d as int] || c
            == digit_tables().1[d as int]),
{
}

proof fn lemma_digit_reads_back(d: nat, radix: nat)
    requires
        d < radix <= 16,
    ensures
        digit_value(digit_char(d), radix) == Some(d),
{
}

/// The numeral of a number reads back as that number, and it has no leading zero.
pub proof fn law_numeral_reads_back(n: nat, radix: nat)
    requires
        2 <= radix <= 16,
    ensures
        digits_value(numeral(n, radix), radix) == Some(n),
        numeral(n, radix).len() > 0,
        n > 0 ==> numeral(n, radix)[0] != '0',
        n < radix ==> numeral(n, radix).len() == 1,
    decreases n,
{
    let s = numeral(n, radix);
    if n < radix {
        lemma_digit_reads_back(n, radix);
        assert(s.drop_last() =~= Seq::<char>::empty());
        assert(digits_value(s.drop_last(), radix) == Some(0nat));
        assert(0 * radix == 0);
    } else {
        assert(n / radix < n && n / radix > 0) by (nonlinear_arith)
            requires
                n >= radix >= 2,
        ;
        assert(n % radix < radix) by (nonlinear_arith)
            requires
                radix >= 2,
        ;
        law_numeral_reads_back(n / radix, radix);
        lemma_digit_reads_back(n % radix, radix);
        assert(s.drop_last() =~= numeral(n / radix, radix));
        assert(s[0] == numeral(n / radix, radix)[0]);
        assert(n / radix * radix + n % radix == n) by {
            vstd::arithmetic::div_mod::lemma_fundamental_div_mod(n as int, radix as int);
            assert(radix * (n / radix) == n / radix * radix) by (nonlinear_arith);
        }
    }
}

/// A digit string is worth as much as its digits by their places: one in front of `k` others
/// counts the base to the power of `k` times.
pub proof fn law_first_digit_counts_most(c: char, s: Seq<char>, radix: nat)
    ensures
        digits_value(seq![c] + s, radix) == match (digit_value(c, radix), digits_value(s, radix)) {
            (Some(d), Some(v)) => Some(
                (d * vstd::arithmetic::power::pow(radix as int, s.len()) + v) as nat,
            ),
            _ => None,
        },
    decreases s.len(),
{
    reveal(vstd::arithmetic::power::pow);
    let t = seq![c] + s;
    if s.len() == 0 {
        assert(t.drop_last() =~= Seq::<char>::empty());
        assert(digits_value(t.drop_last(), radix) == Some(0nat));
        assert(0 * radix == 0);
    } else {
        law_first_digit_counts_most(c, s.drop_last(), radix);
        assert(t.drop_last() =~= seq![c] + s.drop_last());
        assert(t.last() == s.last());
        if let (Some(d), Some(v)) = (digit_value(c, radix), digits_value(s.drop_last(), radix)) {
            let p = vstd::arithmetic::power::pow(radix as int, (s.len() - 1) as nat);
            lemma_pow_not_negative(radix, (s.len() - 1) as nat);
            assert((d * p + v) * radix == d * (radix * p) + v * radix) by (nonlinear_arith);
            assert(d * p >= 0) by (nonlinear_arith)
                requires
                    p >= 0,
            ;
        }
    }
}

/// A numeral is read as its number up to the greatest one allowed and refused above it, with a
/// plus sign or without.
pub proof fn law_numbers_are_read_up_to_the_limit(n: nat, max: nat)
    ensures
        number(decimal(n), 10, max) == if n <= max {
            Some(n)
        } else {
            None
        },
        number(seq!['+'] + decimal(n), 10, max) == number(decimal(n), 10, max),
{
    law_numeral_reads_back(n, 10);
    let s = decimal(n);
    lemma_digits_all(s, 10, 0);
    assert((seq!['+'] + s).skip(1) =~= s);
}

/// What holds no digit is no number, nor is what holds a character that is none.
pub proof fn law_other_text_is_no_number(s: Seq<char>, radix: nat, max: nat, i: int)
    requires
        radix <= 16,
        s.len() == 0 || (0 <= i < s.len() && digit_value(s[i], radix) is None && (i > 0 || s[i]
            != '+')) || s == seq!['+'],
    ensures
        number(s, radix, max) is None,
{
    if s.len() > 0 && s != seq!['+'] {
        lemma_digits_all(s, radix, i);
        if s[0] == '+' {
            assert(s.skip(1)[i - 1] == s[i]);
            lemma_digits_all(s.skip(1), radix, i - 1);
        }
    } else if s == seq!['+'] {
        assert(s.skip(1).len() == 0);
    }
}

/// Joined lists join again: the separator stands between them; one text alone stands as it is.
pub proof fn law_joining_goes_piece_by_piece(
    a: Seq<Seq<char>>,
    b: Seq<Seq<char>>,
    sep: Seq<char>,
)
    requires
        a.len() > 0,
        b.len() > 0,
    ensures
        joined(a + b, sep) == joined(a, sep) + sep + joined(b, sep),
        a.len() == 1 ==> joined(a, sep) == a[0],
        joined(Seq::empty(), sep) == Seq::<char>::empty(),
    decreases b.len(),
{
    let all = a + b;
    assert(all.drop_last() =~= a + b.drop_last());
    assert(joined(Seq::empty(), sep) =~= Seq::<char>::empty());
    if a.len() == 1 {
        assert(a.drop_last() =~= Seq::<Seq<char>>::empty());
        assert(joined(a, sep) =~= a[0]);
    }
    if b.len() == 1 {
        assert(b.drop_last() =~= Seq::<Seq<char>>::empty());
        assert(a + b.drop_last() =~= a);
        assert(joined(all, sep) =~= joined(a, sep) + sep + joined(b, sep));
    } else {
        law_joining_goes_piece_by_piece(a, b.drop_last(), sep);
        assert(joined(all, sep) =~= joined(a, sep) + sep + joined(b, sep));
    }
}

proof fn lemma_pow_not_negative(radix: nat, k: nat)
    ensures
        vstd::arithmetic::power::pow(radix as int, k) >= 0,
    decreases k,
{
    reveal(vstd::arithmetic::power::pow);
    if k > 0 {
        lemma_pow_not_negative(radix, (k - 1) as nat);
        let p = vstd::arithmetic::power::pow(radix as int, (k - 1) as nat);
        assert(radix * p >= 0) by (nonlinear_arith)
            requires
                p >= 0,
        ;
    }
}

/// A string of decimal digits without a leading zero is the numeral of its value.
pub proof fn law_only_the_numeral_is_read(s: Seq<char>, n: nat)
    requires
        s.len() > 0,
        s.len() == 1 || s[0] != '0',
        digits_value(s, 10) == Some(n),
    ensures
        s == decimal(n),
        s.len() > 1 ==> n >= 10,
    decreases s.len(),
{
    let front = s.drop_last();
    let d = digit_value(s.last(), 10)->0;
    assert(digit_char(d) == s.last());
    if s.len() == 1 {
        assert(front =~= Seq::<char>::empty());
        assert(digits_value(front, 10) == Some(0nat));
        assert(s =~= decimal(n));
    } else {
        let v = digits_value(front, 10)->0;
        law_only_the_numeral_is_read(front, v);
        if front.len() == 1 {
            law_numeral_reads_back(v, 10);
            assert(front[0] == s[0]);
            assert(v > 0);
        }
        assert(n == v * 10 + d);
        assert(n / 10 == v && n % 10 == d);
        assert(s =~= front.push(s.last()));
    }
}

/// A string of digits is read for its value in every base, also with leading zeros, with a plus
/// sign or without; above the limit it is refused.
pub proof fn law_digit_strings_are_read(d: Seq<char>, radix: nat, max: nat, v: nat)
    requires
        radix <= 16,
        d.len() > 0,
        digits_value(d, radix) == Some(v),
    ensures
        number(d, radix, max) == if v <= max {
            Some(v)
        } else {
            None
        },
        number(seq!['+'] + d, radix, max) == number(d, radix, max),
{
    lemma_digits_all(d, radix, 0);
    assert((seq!['+'] + d).skip(1) =~= d);
}

} // verus!
