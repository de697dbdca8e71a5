//! Whether a text is JSON.
use crate::json;
use crate::text;
use vstd::prelude::*;

verus! {

/// White space between the parts of a JSON text.
pub open spec fn is_blank(c: char) -> bool {
    c == ' ' || c == '\t' || c == '\n' || c == '\r'
}

/// Whether a number or a word ends before `c`.
pub open spec fn is_delimiter(c: char) -> bool {
    is_blank(c) || c == '"' || c == '{' || c == '}' || c == '[' || c == ']' || c == ':' || c == ','
}

/// How many characters stand before the closing quote of a JSON string whose opening quote is
/// passed, if it holds no raw control character and a backslash only before what it may escape.
pub open spec fn string_len(t: Seq<char>) -> Option<nat>
    decreases t.len(),
{
    if t.len() == 0 || (t[0] as u32) < 0x20 {
        None
    } else if t[0] == '"' {
        Some(0)
    } else {
        let n: int = if t[0] != '\\' {
            1
        } else if t.len() >= 2 && json::simple_escape(t[1]) is Some {
            2
        } else if t.len() >= 6 && t[1] == 'u' && text::digits_value(t.subrange(2, 6), 16) is Some {
            6
        } else {
            0
        };
        if n == 0 {
            None
        } else {
            match string_len(t.skip(n)) {
                Some(k) => Some(k + n as nat),
                None => None,
            }
        }
    }
}

pub proof fn lemma_string_len(t: Seq<char>)
    ensures
        string_len(t) matches Some(n) ==> n < t.len(),
    decreases t.len(),
{
    if t.len() > 0 && t[0] != '"' {
        if t[0] != '\\' {
            lemma_string_len(t.skip(1));
        } else if t.len() >= 2 && json::simple_escape(t[1]) is Some {
            lemma_string_len(t.skip(2));
        } else if t.len() >= 6 {
            lemma_string_len(t.skip(6));
        }
    }
}

/// Four characters write a hexadecimal number exactly if each is a hexadecimal digit.
pub proof fn lemma_four_digits(d: Seq<char>)
    requires
        d.len() == 4,
    ensures
        text::digits_value(d, 16) is Some <==> text::digit_value(d[0], 16) is Some
            && text::digit_value(d[1], 16) is Some && text::digit_value(d[2], 16) is Some
            && text::digit_value(d[3], 16) is Some,
{
    reveal_with_fuel(text::digits_value, 5);
    assert(d.drop_last() =~= d.take(3));
    assert(d.take(3).drop_last() =~= d.take(2));
    assert(d.take(2).drop_last() =~= d.take(1));
    assert(d.take(1).drop_last() =~= d.take(0));
}

/// How many characters stand in front before the first delimiter.
pub open spec fn bare_len(s: Seq<char>) -> nat
    decreases s.len(),
{
    if s.len() == 0 || is_delimiter(s[0]) {
        0
    } else {
        1 + bare_len(s.skip(1))
    }
}

pub proof fn lemma_bare_len(s: Seq<char>)
    ensures
        bare_len(s) <= s.len(),
        forall|i: int| 0 <= i < bare_len(s) ==> !is_delimiter(#[trigger] s[i]),
    decreases s.len(),
{
    if s.len() > 0 && !is_delimiter(s[0]) {
        lemma_bare_len(s.skip(1));
        assert forall|i: int| 0 <= i < bare_len(s) implies !is_delimiter(#[trigger] s[i]) by {
            if i > 0 {
                assert(s[i] == s.skip(1)[i - 1]);
            }
        }
    }
}

/// How many decimal digits stand in front.
pub open spec fn digit_count(s: Seq<char>) -> nat
    decreases s.len(),
{
    if s.len() == 0 || !('0' <= s[0] && s[0] <= '9') {
        0
    } else {
        1 + digit_count(s.skip(1))
    }
}

/// `s` without a leading `c`.
pub open spec fn without(s: Seq<char>, c: char) -> Seq<char> {
    if s.len() > 0 && s[0] == c {
        s.skip(1)
    } else {
        s
    }
}

/// Whether `s` is one or more digits and nothing else.
pub open spec fn all_digits(s: Seq<char>) -> bool {
    s.len() > 0 && digit_count(s) == s.len()
}

/// Whether `s` is empty or an exponent.
pub open spec fn is_exponent(s: Seq<char>) -> bool {
    ||| s.len() == 0
    ||| (s[0] == 'e' || s[0] == 'E') && {
        let t = s.skip(1);
        all_digits(
            if t.len() > 0 && t[0] == '-' {
                t.skip(1)
            } else {
                without(t, '+')
            },
        )
    }
}

/// Whether `s` is what may follow the integer part of a JSON number: a fraction or none, and an
/// exponent or none.
pub open spec fn is_number_end(s: Seq<char>) -> bool {
    if s.len() > 0 && s[0] == '.' {
        let n = digit_count(s.skip(1)) as int;
        n > 0 && is_exponent(s.skip(1).skip(n))
    } else {
        is_exponent(s)
    }
}

/// Whether `w` is a JSON number.
pub open spec fn is_number(w: Seq<char>) -> bool {
    let s = without(w, '-');
    let n = digit_count(s) as int;
    n > 0 && (n == 1 || s[0] != '0') && is_number_end(s.skip(n))
}

/// Whether `w` is a JSON number or one of the words of JSON.
pub open spec fn is_literal(w: Seq<char>) -> bool {
    ||| w == seq!['t', 'r', 'u', 'e']
    ||| w == seq!['f', 'a', 'l', 's', 'e']
    ||| w == seq!['n', 'u', 'l', 'l']
    ||| is_number(w)
}

/// What may come next in a JSON text.
#[derive(Clone, Copy, Debug, PartialEq, Eq, Structural)]
pub enum Place {
    /// A value.
    Value,
    /// A value, or the end of an empty list.
    First,
    /// The name of a field.
    Name,
    /// The name of a field, or the end of an empty object.
    FirstName,
    /// A colon.
    Colon,
    /// What follows a value.
    After,
}

/// Whether `s` completes a JSON text. `open` are the objects (`true`) and lists (`false`) that
/// are not closed yet, outermost first.
pub open spec fn completes(s: Seq<char>, open: Seq<bool>, place: Place) -> bool
    decreases s.len(),
    via completes_decreases
{
    if s.len() == 0 {
        place is After && open.len() == 0
    } else if is_blank(s[0]) {
        completes(s.skip(1), open, place)
    } else if s[0] == '"' {
        match (string_len(s.skip(1)), after_string(place)) {
            (Some(n), Some(next)) => completes(s.skip(n as int + 2), open, next),
            _ => false,
        }
    } else if is_delimiter(s[0]) {
        match after_mark(s[0], open, place) {
            Some((o, next)) => completes(s.skip(1), o, next),
            None => false,
        }
    } else {
        let n = bare_len(s) as int;
        &&& place is Value || place is First
        &&& is_literal(s.take(n))
        &&& completes(s.skip(n), open, Place::After)
    }
}

/// What comes after a string, where one may stand.
pub open spec fn after_string(place: Place) -> Option<Place> {
    match place {
        Place::Value => Some(Place::After),
        Place::First => Some(Place::After),
        Place::Name => Some(Place::Colon),
        Place::FirstName => Some(Place::Colon),
        Place::Colon => None,
        Place::After => None,
    }
}

/// What is open and what comes after a brace, a bracket, a colon or a comma, where one may
/// stand.
pub open spec fn after_mark(c: char, open: Seq<bool>, place: Place) -> Option<(Seq<bool>, Place)> {
    if c == '{' && (place is Value || place is First) {
        Some((open.push(true), Place::FirstName))
    } else if c == '[' && (place is Value || place is First) {
        Some((open.push(false), Place::First))
    } else if c == ':' && place is Colon {
        Some((open, Place::Value))
    } else if open.len() == 0 {
        None
    } else if c == '}' && (place is FirstName || place is After) && open.last() {
        Some((open.drop_last(), Place::After))
    } else if c == ']' && (place is First || place is After) && !open.last() {
        Some((open.drop_last(), Place::After))
    } else if c == ',' && place is After {
        Some(
            (
                open,
                if open.last() {
                    Place::Name
                } else {
                    Place::Value
                },
            ),
        )
    } else {
        None
    }
}

#[via_fn]
proof fn completes_decreases(s: Seq<char>, open: Seq<bool>, place: Place) {
    if s.len() > 0 {
        lemma_string_len(s.skip(1));
        lemma_bare_len(s);
    }
}

/// Whether `s` is a JSON text.
pub open spec fn is_json(s: Seq<char>) -> bool {
    completes(s, Seq::empty(), Place::Value)
}

fn blank(c: char) -> (r: bool)
    ensures
        r == is_blank(c),
{
    c == ' ' || c == '\t' || c == '\n' || c == '\r'
}

fn delimiter(c: char) -> (r: bool)
    ensures
        r == is_delimiter(c),
{
    blank(c) || c == '"' || c == '{' || c == '}' || c == '[' || c == ']' || c == ':' || c == ','
}

fn escapes(c: char) -> (r: bool)
    ensures
        r == (json::simple_escape(c) is Some),
{
    c == '"' || c == '\\' || c == '/' || c == 'n' || c == 'r' || c == 't' || c == 'b' || c == 'f'
}

fn hex_at(s: &[char], at: usize) -> (r: bool)
    requires
        at + 4 <= s@.len(),
    ensures
        r == (text::digits_value(s@.subrange(at as int, at + 4), 16) is Some),
{
    let ghost d = s@.subrange(at as int, at + 4);
    proof {
        lemma_four_digits(d);
    }
    hex(s[at]) && hex(s[at + 1]) && hex(s[at + 2]) && hex(s[at + 3])
}

fn hex(c: char) -> (r: bool)
    ensures
        r == (text::digit_value(c, 16) is Some),
{
    ('0' <= c && c <= '9') || ('a' <= c && c <= 'f') || ('A' <= c && c <= 'F')
}

/// The number of characters before the closing quote, see [`string_len`].
fn string_length(s: &[char], from: usize) -> (r: Option<usize>)
    requires
        from <= s@.len(),
    ensures
        match (r, string_len(s@.skip(from as int))) {
            (Some(a), Some(b)) => a == b && from + a < s@.len(),
            (None, None) => true,
            _ => false,
        },
{
    let mut i: usize = from;
    while i < s.len()
        invariant
            from <= i <= s@.len(),
            string_len(s@.skip(from as int)) == match string_len(s@.skip(i as int)) {
                Some(n) => Some((n + i - from) as nat),
                None => None,
            },
        decreases s@.len() - i,
    {
        let ghost t = s@.skip(i as int);
        let c = s[i];
        if c as u32 <= 0x1f {
            return None;
        }
        if c == '"' {
            return Some(i - from);
        }
        let left: usize = s.len() - i;
        let n: usize = if c != '\\' {
            1
        } else if left >= 2 && escapes(s[i + 1]) {
            2
        } else if left >= 6 && s[i + 1] == 'u' && hex_at(s, i + 2) {
            6
        } else {
            0
        };
        proof {
            if left >= 6 {
                assert(t.subrange(2, 6) =~= s@.subrange(i + 2, i + 2 + 4));
            }
            assert(t.skip(n as int) =~= s@.skip(i + n));
        }
        if n == 0 {
            return None;
        }
        i += n;
    }
    None
}

fn bare_end(s: &[char], from: usize) -> (r: usize)
    requires
        from <= s@.len(),
    ensures
        r == from + bare_len(s@.skip(from as int)),
        r <= s@.len(),
{
    let mut i: usize = from;
    while i < s.len() && !delimiter(s[i])
        invariant
            from <= i <= s@.len(),
            i - from + bare_len(s@.skip(i as int)) == bare_len(s@.skip(from as int)),
        decreases s@.len() - i,
    {
        assert(s@.skip(i as int).skip(1) =~= s@.skip(i + 1));
        i += 1;
    }
    i
}

fn digits_end(s: &[char], from: usize) -> (r: usize)
    requires
        from <= s@.len(),
    ensures
        r == from + digit_count(s@.skip(from as int)),
        r <= s@.len(),
{
    let mut i: usize = from;
    while i < s.len() && '0' <= s[i] && s[i] <= '9'
        invariant
            from <= i <= s@.len(),
            i - from + digit_count(s@.skip(i as int)) == digit_count(s@.skip(from as int)),
        decreases s@.len() - i,
    {
        assert(s@.skip(i as int).skip(1) =~= s@.skip(i + 1));
        i += 1;
    }
    i
}

fn exponent_from(s: &[char], from: usize) -> (r: bool)
    requires
        from <= s@.len(),
    ensures
        r == is_exponent(s@.skip(from as int)),
{
    let ghost e = s@.skip(from as int);
    if from == s.len() {
        return true;
    }
    if s[from] != 'e' && s[from] != 'E' {
        return false;
    }
    assert(e.skip(1) =~= s@.skip(from + 1));
    let mut at: usize = from + 1;
    if at < s.len() && (s[at] == '-' || s[at] == '+') {
        assert(e.skip(1).skip(1) =~= s@.skip(from + 2));
        at += 1;
    }
    at < s.len() && digits_end(s, at) == s.len()
}

fn number_end_from(s: &[char], from: usize) -> (r: bool)
    requires
        from <= s@.len(),
    ensures
        r == is_number_end(s@.skip(from as int)),
{
    let ghost b = s@.skip(from as int);
    if from < s.len() && s[from] == '.' {
        assert(b.skip(1) =~= s@.skip(from + 1));
        let stop: usize = digits_end(s, from + 1);
        assert(b.skip(1).skip(stop - from - 1) =~= s@.skip(stop as int));
        stop > from + 1 && exponent_from(s, stop)
    } else {
        exponent_from(s, from)
    }
}

fn number(s: &[char]) -> (r: bool)
    ensures
        r == is_number(s@),
{
    assert(s@.skip(0) =~= s@);
    let start: usize = if s.len() > 0 && s[0] == '-' {
        1
    } else {
        0
    };
    let ghost a = s@.skip(start as int);
    let end: usize = digits_end(s, start);
    if end == start || (end - start > 1 && s[start] == '0') {
        return false;
    }
    assert(a == without(s@, '-'));
    assert(a.skip(end - start) =~= s@.skip(end as int));
    number_end_from(s, end)
}

fn literal(s: &[char]) -> (r: bool)
    ensures
        r == is_literal(s@),
{
    proof {
        reveal_strlit("true");
        reveal_strlit("false");
        reveal_strlit("null");
        assert("true"@ =~= seq!['t', 'r', 'u', 'e']);
        assert("false"@ =~= seq!['f', 'a', 'l', 's', 'e']);
        assert("null"@ =~= seq!['n', 'u', 'l', 'l']);
    }
    text::spells(s, "true") || text::spells(s, "false") || text::spells(s, "null") || number(s)
}

fn mark(c: char, open: &mut Vec<bool>, place: Place) -> (r: Option<Place>)
    ensures
        match (r, after_mark(c, old(open)@, place)) {
            (Some(p), Some((o, q))) => p == q && final(open)@ == o,
            (None, None) => true,
            _ => false,
        },
{
    let value: bool = match place {
        Place::Value => true,
        Place::First => true,
        _ => false,
    };
    if c == '{' && value {
        open.push(true);
        return Some(Place::FirstName);
    }
    if c == '[' && value {
        open.push(false);
        return Some(Place::First);
    }
    if c == ':' && place == Place::Colon {
        return Some(Place::Value);
    }
    if open.len() == 0 {
        return None;
    }
    let object: bool = open[open.len() - 1];
    if c == '}' && (place == Place::FirstName || place == Place::After) && object {
        open.pop();
        return Some(Place::After);
    }
    if c == ']' && (place == Place::First || place == Place::After) && !object {
        open.pop();
        return Some(Place::After);
    }
    if c == ',' && place == Place::After {
        return Some(
            if object {
                Place::Name
            } else {
                Place::Value
            },
        );
    }
    None
}

/// Whether `s` is a JSON text, see [`is_json`].
pub fn check_json(s: &[char]) -> (r: bool)
    ensures
        r == is_json(s@),
{
    let mut i: usize = 0;
    let mut open: Vec<bool> = Vec::new();
    let mut place = Place::Value;
    assert(s@.skip(0) =~= s@);
    assert(open@ =~= Seq::<bool>::empty());
    while i < s.len()
        invariant
            i <= s@.len(),
            completes(s@.skip(i as int), open@, place) == is_json(s@),
        decreases s@.len() - i,
    {
        let ghost t = s@.skip(i as int);
        assert(t.skip(1) =~= s@.skip(i + 1));
        let c = s[i];
        if blank(c) {
            i += 1;
        } else if c == '"' {
            let next = match place {
                Place::Value => Place::After,
                Place::First => Place::After,
                Place::Name => Place::Colon,
                Place::FirstName => Place::Colon,
                Place::Colon => {
                    return false;
                },
                Place::After => {
                    return false;
                },
            };
            match string_length(s, i + 1) {
                None => {
                    return false;
                },
                Some(n) => {
                    let end: usize = i + 1 + n;
                    assert(t.skip(n + 2) =~= s@.skip(end + 1));
                    i = end + 1;
                },
            }
            place = next;
        } else if delimiter(c) {
            match mark(c, &mut open, place) {
                None => {
                    return false;
                },
                Some(next) => {
                    place = next;
                },
            }
            i += 1;
        } else {
            let end: usize = bare_end(s, i);
            assert(t.take(end - i) =~= s@.subrange(i as int, end as int));
            assert(t.skip(end - i) =~= s@.skip(end as int));
            if place != Place::Value && place != Place::First {
                return false;
            }
            if !literal(vstd::slice::slice_subrange(s, i, end)) {
                return false;
            }
            assert(bare_len(t) > 0);
            i = end;
            place = Place::After;
        }
    }
    place == Place::After && open.len() == 0
}

/// Decimal digits in front of something else are all counted.
proof fn lemma_digits_in_front(d: Seq<char>, rest: Seq<char>)
    requires
        forall|i: int| 0 <= i < d.len() ==> '0' <= #[trigger] d[i] <= '9',
        rest.len() > 0 ==> !('0' <= rest[0] <= '9'),
    ensures
        digit_count(d + rest) == d.len(),
    decreases d.len(),
{
    if d.len() > 0 {
        assert((d + rest).skip(1) =~= d.skip(1) + rest);
        lemma_digits_in_front(d.skip(1), rest);
    } else {
        assert(d + rest =~= rest);
    }
}

/// A number is a minus or none, an integer without a leading zero, a fraction or none, and an
/// exponent or none; fraction and exponent have digits. Further digits after a zero in front are
/// refused.
pub proof fn law_numbers_of_json(
    minus: Seq<char>,
    integer: Seq<char>,
    fraction: Seq<char>,
    exponent: Seq<char>,
    mark: char,
    sign: Seq<char>,
    has_fraction: bool,
    has_exponent: bool,
)
    requires
        minus == Seq::<char>::empty() || minus == seq!['-'],
        sign == Seq::<char>::empty() || sign == seq!['-'] || sign == seq!['+'],
        mark == 'e' || mark == 'E',
        integer.len() > 0 && fraction.len() > 0 && exponent.len() > 0,
        forall|i: int| 0 <= i < integer.len() ==> '0' <= #[trigger] integer[i] <= '9',
        forall|i: int| 0 <= i < fraction.len() ==> '0' <= #[trigger] fraction[i] <= '9',
        forall|i: int| 0 <= i < exponent.len() ==> '0' <= #[trigger] exponent[i] <= '9',
    ensures
        ({
            let tail = if has_exponent {
                seq![mark] + (sign + exponent)
            } else {
                Seq::empty()
            };
            let end = if has_fraction {
                seq!['.'] + (fraction + tail)
            } else {
                tail
            };
            is_number(minus + (integer + end)) <==> integer.len() == 1 || integer[0] != '0'
        }),
{
    let tail = if has_exponent {
        seq![mark] + (sign + exponent)
    } else {
        Seq::empty()
    };
    let end = if has_fraction {
        seq!['.'] + (fraction + tail)
    } else {
        tail
    };
    let w = minus + (integer + end);
    assert(is_exponent(tail)) by {
        if has_exponent {
            let t = sign + exponent;
            assert(tail.skip(1) =~= t);
            lemma_digits_in_front(exponent, Seq::empty());
            assert(exponent + Seq::<char>::empty() =~= exponent);
            if sign.len() > 0 {
                assert(t.skip(1) =~= exponent);
            } else {
                assert(t =~= exponent);
            }
        }
    }
    assert(is_number_end(end)) by {
        if has_fraction {
            assert(end.skip(1) =~= fraction + tail);
            lemma_digits_in_front(fraction, tail);
            assert((fraction + tail).skip(fraction.len() as int) =~= tail);
        }
    }
    let s = integer + end;
    if minus.len() > 0 {
        assert(w.skip(1) =~= s);
    } else {
        assert(w =~= s);
    }
    lemma_digits_in_front(integer, end);
    assert(s.skip(integer.len() as int) =~= end);
}

/// Digits in front are digits, and what follows them is none.
proof fn lemma_digit_count(s: Seq<char>)
    ensures
        digit_count(s) <= s.len(),
        forall|i: int| 0 <= i < digit_count(s) ==> '0' <= #[trigger] s[i] <= '9',
        digit_count(s) < s.len() ==> !('0' <= s[digit_count(s) as int] <= '9'),
    decreases s.len(),
{
    if s.len() > 0 && '0' <= s[0] && s[0] <= '9' {
        lemma_digit_count(s.skip(1));
        assert forall|i: int| 0 <= i < digit_count(s) implies '0' <= #[trigger] s[i] <= '9' by {
            if i > 0 {
                assert(s[i] == s.skip(1)[i - 1]);
            }
        }
    }
}

/// A number begins with a digit or a minus and ends with a digit.
pub proof fn law_numbers_begin_and_end_with_digits(w: Seq<char>)
    requires
        is_number(w),
    ensures
        w.len() > 0,
        w[0] == '-' || '0' <= w[0] <= '9',
        '0' <= w.last() <= '9',
{
    let s = without(w, '-');
    let n = digit_count(s) as int;
    lemma_digit_count(s);
    let end = s.skip(n);
    if end.len() > 0 {
        let tail = if end[0] == '.' {
            let f = end.skip(1);
            lemma_digit_count(f);
            assert(f.skip(digit_count(f) as int).len() == 0 ==> f.last()
                == f[digit_count(f) as int - 1]);
            f.skip(digit_count(f) as int)
        } else {
            end
        };
        if tail.len() > 0 {
            let t = tail.skip(1);
            let d = if t.len() > 0 && t[0] == '-' {
                t.skip(1)
            } else {
                without(t, '+')
            };
            lemma_digit_count(d);
            assert(d.last() == w.last());
        }
    } else {
        assert(s[n - 1] == w.last());
    }
}

/// Where a JSON text is complete, only white space may follow.
pub proof fn law_nothing_follows_a_json_text(s: Seq<char>)
    ensures
        completes(s, Seq::empty(), Place::After) <==> forall|i: int|
            0 <= i < s.len() ==> #[trigger] s[i] == ' ' || s[i] == '\t' || s[i] == '\n' || s[i]
                == '\r',
    decreases s.len(),
{
    if s.len() > 0 {
        if is_blank(s[0]) {
            law_nothing_follows_a_json_text(s.skip(1));
            if forall|i: int|
                0 <= i < s.skip(1).len() ==> #[trigger] s.skip(1)[i] == ' ' || s.skip(1)[i] == '\t'
                    || s.skip(1)[i] == '\n' || s.skip(1)[i] == '\r' {
                assert forall|i: int| 0 <= i < s.len() implies #[trigger] s[i] == ' ' || s[i]
                    == '\t' || s[i] == '\n' || s[i] == '\r' by {
                    if i > 0 {
                        assert(s[i] == s.skip(1)[i - 1]);
                    }
                }
            }
            if forall|i: int|
                0 <= i < s.len() ==> #[trigger] s[i] == ' ' || s[i] == '\t' || s[i] == '\n' || s[i]
                    == '\r' {
                assert forall|i: int| 0 <= i < s.skip(1).len() implies #[trigger] s.skip(1)[i]
                    == ' ' || s.skip(1)[i] == '\t' || s.skip(1)[i] == '\n' || s.skip(1)[i]
                    == '\r' by {
                    assert(s.skip(1)[i] == s[i + 1]);
                }
            }
        } else {
            assert(!(s[0] == ' ' || s[0] == '\t' || s[0] == '\n' || s[0] == '\r'));
        }
    }
}

/// Braces and brackets close what was opened last, no comma stands before one that closes, and
/// a text in which something is still open is not complete.
pub proof fn law_braces_and_brackets_match(
    open: Seq<bool>,
    object: bool,
    rest: Seq<char>,
    place: Place,
)
    ensures
        !completes(Seq::empty(), open.push(object), place),
        completes(seq!['}'] + rest, open.push(object), Place::After) <==> object && completes(
            rest,
            open,
            Place::After,
        ),
        completes(seq![']'] + rest, open.push(object), Place::After) <==> !object && completes(
            rest,
            open,
            Place::After,
        ),
        completes(seq![','] + rest, open.push(object), Place::After) <==> completes(
            rest,
            open.push(object),
            if object {
                Place::Name
            } else {
                Place::Value
            },
        ),
        !completes(seq!['}'] + rest, open, Place::Name),
        !completes(seq![']'] + rest, open, Place::Value),
        !completes(seq!['}'] + rest, open, Place::Value),
        !completes(seq![','] + rest, open, Place::Value),
        !completes(seq![','] + rest, open, Place::Name),
        !completes(seq!['}'] + rest, open, Place::Colon),
        !completes(seq!['"'] + rest, open, Place::After),
        !completes(seq!['"'] + rest, open, Place::Colon),
        !completes(seq![':'] + rest, open, Place::After),
{
    assert(open.push(object).drop_last() =~= open);
    assert((seq!['}'] + rest).skip(1) =~= rest);
    assert((seq![']'] + rest).skip(1) =~= rest);
    assert((seq![','] + rest).skip(1) =~= rest);
}

/// Where a value may stand, an object, a list or a string may; in an empty object or list the end
/// may come at once, and the name of a field is followed by a colon and a value.
pub proof fn law_values_and_names(open: Seq<bool>, rest: Seq<char>, first: bool)
    ensures
        ({
            let value = if first {
                Place::First
            } else {
                Place::Value
            };
            let name = if first {
                Place::FirstName
            } else {
                Place::Name
            };
            &&& completes(seq!['{'] + rest, open, value) == completes(
                rest,
                open.push(true),
                Place::FirstName,
            )
            &&& completes(seq!['['] + rest, open, value) == completes(
                rest,
                open.push(false),
                Place::First,
            )
            &&& completes(seq!['"', '"'] + rest, open, value) == completes(rest, open, Place::After)
            &&& completes(seq!['"', '"'] + rest, open, name) == completes(rest, open, Place::Colon)
            &&& completes(seq![':'] + rest, open, Place::Colon) == completes(
                rest,
                open,
                Place::Value,
            )
            &&& completes(seq!['}'] + rest, open.push(true), Place::FirstName) == completes(
                rest,
                open,
                Place::After,
            )
            &&& completes(seq![']'] + rest, open.push(false), Place::First) == completes(
                rest,
                open,
                Place::After,
            )
        }),
{
    assert((seq!['{'] + rest).skip(1) =~= rest);
    assert((seq!['['] + rest).skip(1) =~= rest);
    assert((seq![':'] + rest).skip(1) =~= rest);
    assert((seq!['}'] + rest).skip(1) =~= rest);
    assert((seq![']'] + rest).skip(1) =~= rest);
    assert(open.push(true).drop_last() =~= open);
    assert(open.push(false).drop_last() =~= open);
    let s = seq!['"', '"'] + rest;
    assert(s.skip(1)[0] == '"');
    assert(string_len(s.skip(1)) == Some(0nat));
    assert(s.skip(2) =~= rest);
}

/// The words of JSON are `true`, `false` and `null`; what else stands bare is a number.
pub proof fn law_words_of_json(w: Seq<char>)
    ensures
        is_literal(w) <==> w == "true"@ || w == "false"@ || w == "null"@ || is_number(w),
{
    reveal_strlit("true");
    reveal_strlit("false");
    reveal_strlit("null");
    assert("true"@ =~= seq!['t', 'r', 'u', 'e']);
    assert("false"@ =~= seq!['f', 'a', 'l', 's', 'e']);
    assert("null"@ =~= seq!['n', 'u', 'l', 'l']);
}

/// A bare word or number up to a delimiter may stand where a value may, and nowhere else.
pub proof fn law_bare_values(w: Seq<char>, c: char, rest: Seq<char>, open: Seq<bool>, place: Place)
    requires
        w.len() > 0,
        forall|i: int| 0 <= i < w.len() ==> !is_delimiter(#[trigger] w[i]),
        is_delimiter(c),
    ensures
        completes(w + (seq![c] + rest), open, place) <==> (place is Value || place is First)
            && is_literal(w) && completes(seq![c] + rest, open, Place::After),
{
    let s = w + (seq![c] + rest);
    lemma_bare_in_front(w, seq![c] + rest);
    assert(s[0] == w[0]);
    assert(s.take(w.len() as int) =~= w);
    assert(s.skip(w.len() as int) =~= seq![c] + rest);
}

proof fn lemma_bare_in_front(w: Seq<char>, rest: Seq<char>)
    requires
        forall|i: int| 0 <= i < w.len() ==> !is_delimiter(#[trigger] w[i]),
        rest.len() > 0 ==> is_delimiter(rest[0]),
    ensures
        bare_len(w + rest) == w.len(),
    decreases w.len(),
{
    if w.len() > 0 {
        assert((w + rest).skip(1) =~= w.skip(1) + rest);
        lemma_bare_in_front(w.skip(1), rest);
    } else {
        assert(w + rest =~= rest);
    }
}

/// A string holds no raw control character, and a backslash in it must begin an escape.
pub proof fn law_strings_of_json(front: Seq<char>, c: char, rest: Seq<char>)
    requires
        forall|i: int|
            0 <= i < front.len() ==> (#[trigger] front[i]) as u32 >= 0x20 && front[i] != '"'
                && front[i] != '\\',
    ensures
        string_len(front + (seq!['"'] + rest)) == Some(front.len()),
        string_len(front) is None,
        (c as u32) < 0x20 ==> string_len(front + (seq![c] + rest)) is None,
        !seq!['"', '\\', '/', 'b', 'f', 'n', 'r', 't', 'u'].contains(c) ==> string_len(
            front + (seq!['\\', c] + rest),
        ) is None,
    decreases front.len(),
{
    if front.len() > 0 {
        law_strings_of_json(front.skip(1), c, rest);
        assert((front + (seq!['"'] + rest)).skip(1) =~= front.skip(1) + (seq!['"'] + rest));
        assert((front + (seq![c] + rest)).skip(1) =~= front.skip(1) + (seq![c] + rest));
        assert((front + (seq!['\\', c] + rest)).skip(1) =~= front.skip(1) + (seq!['\\', c]
            + rest));
    } else {
        assert(front + (seq!['"'] + rest) =~= seq!['"'] + rest);
        assert(string_len(seq!['"'] + rest) == Some(0nat));
        assert(front + (seq![c] + rest) =~= seq![c] + rest);
        assert(front + (seq!['\\', c] + rest) =~= seq!['\\', c] + rest);
        let e = seq!['"', '\\', '/', 'b', 'f', 'n', 'r', 't', 'u'];
        assert(e[0] == '"' && e[1] == '\\' && e[2] == '/' && e[3] == 'b' && e[4] == 'f' && e[5]
            == 'n' && e[6] == 'r' && e[7] == 't' && e[8] == 'u');
    }
}

/// In a string a backslash takes one of eight characters, or a `u` and four hexadecimal digits,
/// along with it, and what follows is read on.
pub proof fn law_escapes_in_strings(c: char, d: Seq<char>, rest: Seq<char>)
    requires
        d.len() == 4,
    ensures
        seq!['"', '\\', '/', 'b', 'f', 'n', 'r', 't'].contains(c) ==> string_len(
            seq!['\\', c] + rest,
        ) == match string_len(rest) {
            Some(k) => Some(k + 2),
            None => None,
        },
        string_len(seq!['\\', 'u'] + d + rest) == match string_len(rest) {
            Some(k) => if forall|i: int|
                0 <= i < 4 ==> text::digit_value(#[trigger] d[i], 16) is Some {
                Some(k + 6)
            } else {
                None
            },
            None => None,
        },
{
    let e = seq!['"', '\\', '/', 'b', 'f', 'n', 'r', 't'];
    let s = seq!['\\', c] + rest;
    assert(s.skip(2) =~= rest);
    assert(s[0] == '\\' && s[1] == c);
    if e.contains(c) {
        let i = choose|i: int| 0 <= i < e.len() && e[i] == c;
        assert(0 <= i < 8);
        assert(json::simple_escape(c) is Some);
    }
    let t = seq!['\\', 'u'] + d + rest;
    assert(t[0] == '\\' && t[1] == 'u');
    assert(t.subrange(2, 6) =~= d);
    assert(t.skip(6) =~= rest);
    lemma_four_digits(d);
}

/// A bare word ends before a quote, a brace, a bracket, a colon, a comma and white space.
pub proof fn law_what_ends_a_bare_word(c: char)
    ensures
        is_delimiter(c) <==> seq![
            '"', '{', '}', '[', ']', ':', ',', ' ', '\t', '\n', '\r',
        ].contains(c),
{
    let e = seq!['"', '{', '}', '[', ']', ':', ',', ' ', '\t', '\n', '\r'];
    assert(e[0] == '"' && e[1] == '{' && e[2] == '}' && e[3] == '[' && e[4] == ']' && e[5] == ':'
        && e[6] == ',' && e[7] == ' ' && e[8] == '\t' && e[9] == '\n' && e[10] == '\r');
}

} // verus!
