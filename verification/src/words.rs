//! Cutting text into words, lines and separated parts.
use crate::text;
use vstd::prelude::*;

verus! {

/// The contents of a vector of character vectors.
pub open spec fn rows(v: Seq<Vec<char>>) -> Seq<Seq<char>> {
    v.map_values(|r: Vec<char>| r@)
}

/// Characters with the Unicode property `White_Space`.
pub open spec fn is_space(c: char) -> bool {
    let u = c as u32;
    ||| 9 <= u <= 13
    ||| u == 0x20
    ||| u == 0x85
    ||| u == 0xa0
    ||| u == 0x1680
    ||| 0x2000 <= u <= 0x200a
    ||| u == 0x2028
    ||| u == 0x2029
    ||| u == 0x202f
    ||| u == 0x205f
    ||| u == 0x3000
}

/// Whether `c` is white space.
pub fn white_space(c: char) -> (r: bool)
    ensures
        r == is_space(c),
{
    let u: u32 = c as u32;
    (9 <= u && u <= 13) || u == 0x20 || u == 0x85 || u == 0xa0 || u == 0x1680 || (0x2000 <= u && u
        <= 0x200a) || u == 0x2028 || u == 0x2029 || u == 0x202f || u == 0x205f || u == 0x3000
}

/// `s` without the white space in front.
pub open spec fn trim_start(s: Seq<char>) -> Seq<char>
    decreases s.len(),
{
    if s.len() > 0 && is_space(s[0]) {
        trim_start(s.skip(1))
    } else {
        s
    }
}

/// `s` without the white space at its end.
pub open spec fn trim_end(s: Seq<char>) -> Seq<char>
    decreases s.len(),
{
    if s.len() > 0 && is_space(s.last()) {
        trim_end(s.drop_last())
    } else {
        s
    }
}

/// `s` without the white space around it.
pub open spec fn trim(s: Seq<char>) -> Seq<char> {
    trim_end(trim_start(s))
}

/// The number of characters in front that are not white space.
pub open spec fn word_len(s: Seq<char>) -> nat
    decreases s.len(),
{
    if s.len() > 0 && !is_space(s[0]) {
        1 + word_len(s.skip(1))
    } else {
        0
    }
}

proof fn lemma_trim_start_len(s: Seq<char>)
    ensures
        trim_start(s).len() <= s.len(),
        trim_start(s).len() > 0 ==> !is_space(trim_start(s)[0]),
    decreases s.len(),
{
    if s.len() > 0 && is_space(s[0]) {
        lemma_trim_start_len(s.skip(1));
    }
}

proof fn lemma_word_len(s: Seq<char>)
    ensures
        word_len(s) <= s.len(),
    decreases s.len(),
{
    if s.len() > 0 && !is_space(s[0]) {
        lemma_word_len(s.skip(1));
    }
}

/// The words of `s`: its longest runs without white space, in order.
pub open spec fn words(s: Seq<char>) -> Seq<Seq<char>>
    decreases s.len(),
    via words_decreases
{
    let t = trim_start(s);
    if t.len() == 0 {
        Seq::empty()
    } else {
        let k = word_len(t) as int;
        seq![t.take(k)] + words(t.skip(k))
    }
}

#[via_fn]
proof fn words_decreases(s: Seq<char>) {
    let t = trim_start(s);
    lemma_trim_start_len(s);
    lemma_word_len(t);
}

/// The first word, if there is one, is not empty.
pub proof fn lemma_first_word(s: Seq<char>)
    ensures
        words(s).len() > 0 ==> words(s)[0].len() > 0 && !is_space(words(s)[0][0]),
{
    let t = trim_start(s);
    lemma_trim_start_len(s);
    lemma_word_len(t);
    if t.len() > 0 {
        assert(word_len(t) > 0);
    }
}

/// The first position at or after `from` that holds no white space.
pub fn skip_space(chars: &[char], from: usize) -> (r: usize)
    requires
        from <= chars@.len(),
    ensures
        from <= r <= chars@.len(),
        chars@.skip(r as int) == trim_start(chars@.skip(from as int)),
{
    let mut i: usize = from;
    while i < chars.len() && white_space(chars[i])
        invariant
            from <= i <= chars@.len(),
            trim_start(chars@.skip(i as int)) == trim_start(chars@.skip(from as int)),
        decreases chars@.len() - i,
    {
        assert(chars@.skip(i as int).skip(1) =~= chars@.skip(i + 1));
        i += 1;
    }
    i
}

/// The first position at or after `from` that holds white space, or the end.
fn skip_word(chars: &[char], from: usize) -> (r: usize)
    requires
        from <= chars@.len(),
    ensures
        from <= r <= chars@.len(),
        r == from + word_len(chars@.skip(from as int)),
{
    let mut i: usize = from;
    while i < chars.len() && !white_space(chars[i])
        invariant
            from <= i <= chars@.len(),
            i - from + word_len(chars@.skip(i as int)) == word_len(chars@.skip(from as int)),
        decreases chars@.len() - i,
    {
        assert(chars@.skip(i as int).skip(1) =~= chars@.skip(i + 1));
        i += 1;
    }
    i
}

/// A copy of `chars[from..to]`.
pub fn copy_range(chars: &[char], from: usize, to: usize) -> (r: Vec<char>)
    requires
        from <= to <= chars@.len(),
    ensures
        r@ == chars@.subrange(from as int, to as int),
{
    let mut r: Vec<char> = Vec::new();
    for i in from..to
        invariant
            from <= to <= chars@.len(),
            r@ == chars@.subrange(from as int, i as int),
    {
        r.push(chars[i]);
    }
    r
}

/// Cuts `chars` into words.
pub fn split_words(chars: &[char]) -> (r: Vec<Vec<char>>)
    ensures
        rows(r@) == words(chars@),
{
    let mut r: Vec<Vec<char>> = Vec::new();
    let mut pos: usize = 0;
    assert(chars@.skip(0) =~= chars@);
    assert(rows(r@) + words(chars@) =~= words(chars@));
    loop
        invariant
            pos <= chars@.len(),
            rows(r@) + words(chars@.skip(pos as int)) == words(chars@),
        decreases chars@.len() - pos,
    {
        let start: usize = skip_space(chars, pos);
        let ghost t = trim_start(chars@.skip(pos as int));
        if start == chars.len() {
            assert(t.len() == 0);
            assert(words(chars@.skip(pos as int)) =~= Seq::<Seq<char>>::empty());
            assert(rows(r@) =~= words(chars@));
            return r;
        }
        let end: usize = skip_word(chars, start);
        let ghost before = rows(r@);
        proof {
            lemma_trim_start_len(chars@.skip(pos as int));
            lemma_word_len(t);
            assert(t == chars@.skip(start as int));
            assert(t.take(end - start) =~= chars@.subrange(start as int, end as int));
            assert(t.skip(end - start) =~= chars@.skip(end as int));
            assert(word_len(t) > 0);
        }
        r.push(copy_range(chars, start, end));
        assert(rows(r@) =~= before.push(chars@.subrange(start as int, end as int)));
        assert(rows(r@) + words(chars@.skip(end as int)) =~= before + (seq![
            t.take(end - start),
        ] + words(t.skip(end - start))));
        pos = end;
    }
}

/// A copy of `chars` without the white space around them.
pub fn trimmed(chars: &[char]) -> (r: Vec<char>)
    ensures
        r@ == trim(chars@),
{
    assert(chars@.skip(0) =~= chars@);
    let start: usize = skip_space(chars, 0);
    let mut end: usize = chars.len();
    assert(chars@.subrange(start as int, end as int) =~= chars@.skip(start as int));
    while end > start && white_space(chars[end - 1])
        invariant
            start <= end <= chars@.len(),
            trim_end(chars@.subrange(start as int, end as int)) == trim(chars@),
        decreases end,
    {
        assert(chars@.subrange(start as int, end as int).drop_last() =~= chars@.subrange(
            start as int,
            end - 1,
        ));
        end -= 1;
    }
    copy_range(chars, start, end)
}

/// Whether `s` is white space and nothing else.
pub open spec fn all_space(s: Seq<char>) -> bool {
    forall|i: int| 0 <= i < s.len() ==> is_space(#[trigger] s[i])
}

proof fn lemma_trim_start(before: Seq<char>, s: Seq<char>)
    requires
        all_space(before),
    ensures
        trim_start(before + s) == trim_start(s),
    decreases before.len(),
{
    if before.len() == 0 {
        assert(before + s =~= s);
    } else {
        let rest = before.skip(1);
        assert forall|i: int| 0 <= i < rest.len() implies is_space(#[trigger] rest[i]) by {
            assert(rest[i] == before[i + 1]);
        }
        lemma_trim_start(rest, s);
        assert((before + s).skip(1) =~= rest + s);
    }
}

proof fn lemma_trim_end(s: Seq<char>, after: Seq<char>)
    requires
        all_space(after),
    ensures
        trim_end(s + after) == trim_end(s),
    decreases after.len(),
{
    if after.len() == 0 {
        assert(s + after =~= s);
    } else {
        let rest = after.drop_last();
        assert forall|i: int| 0 <= i < rest.len() implies is_space(#[trigger] rest[i]) by {
            assert(rest[i] == after[i]);
        }
        lemma_trim_end(s, rest);
        assert((s + after).drop_last() =~= s + rest);
    }
}

/// Trimming the front takes away the white space there, and nothing else.
pub proof fn lemma_trim_front(before: Seq<char>, s: Seq<char>)
    requires
        all_space(before),
        s.len() > 0,
        !is_space(s[0]),
    ensures
        trim_start(before + s) == s,
{
    lemma_trim_start(before, s);
}

/// Trimming takes away the white space around a text, and nothing of the text.
pub proof fn lemma_trim(before: Seq<char>, s: Seq<char>, after: Seq<char>)
    requires
        all_space(before),
        all_space(after),
        s.len() > 0 ==> !is_space(s[0]) && !is_space(s.last()),
    ensures
        trim(before + s + after) == s,
{
    assert(before + s + after =~= before + (s + after));
    lemma_trim_start(before, s + after);
    if s.len() > 0 {
        assert((s + after)[0] == s[0]);
        lemma_trim_end(s, after);
    } else {
        assert(s + after =~= after + s);
        lemma_trim_start(after, s);
    }
}

/// The number of characters in front of the first `c`, or of all of them.
pub open spec fn up_to(s: Seq<char>, c: char) -> nat
    decreases s.len(),
{
    if s.len() > 0 && s[0] != c {
        1 + up_to(s.skip(1), c)
    } else {
        0
    }
}

/// `up_to` finds the first occurrence.
pub proof fn lemma_up_to(s: Seq<char>, c: char)
    ensures
        up_to(s, c) <= s.len(),
        up_to(s, c) < s.len() ==> s[up_to(s, c) as int] == c,
        forall|i: int| 0 <= i < up_to(s, c) ==> s[i] != c,
        s.contains(c) <==> up_to(s, c) < s.len(),
    decreases s.len(),
{
    if s.len() > 0 && s[0] != c {
        lemma_up_to(s.skip(1), c);
        assert forall|i: int| 0 <= i < up_to(s, c) implies s[i] != c by {
            if i > 0 {
                assert(s[i] == s.skip(1)[i - 1]);
            }
        }
    }
    if up_to(s, c) < s.len() {
        assert(s.contains(s[up_to(s, c) as int]));
    }
}

/// The position of the first `c` at or after `from`, or the end.
pub fn find(chars: &[char], from: usize, c: char) -> (r: usize)
    requires
        from <= chars@.len(),
    ensures
        from <= r <= chars@.len(),
        r == from + up_to(chars@.skip(from as int), c),
{
    let mut i: usize = from;
    while i < chars.len() && chars[i] != c
        invariant
            from <= i <= chars@.len(),
            i - from + up_to(chars@.skip(i as int), c) == up_to(chars@.skip(from as int), c),
        decreases chars@.len() - i,
    {
        assert(chars@.skip(i as int).skip(1) =~= chars@.skip(i + 1));
        i += 1;
    }
    i
}

/// The parts of `s` between the occurrences of `sep`: at least one, maybe empty.
pub open spec fn parts(s: Seq<char>, sep: char) -> Seq<Seq<char>>
    decreases s.len(),
{
    let k = up_to(s, sep) as int;
    if k >= s.len() {
        seq![s]
    } else {
        seq![s.take(k)] + parts(s.skip(k + 1), sep)
    }
}

/// The first separator ends the first part.
pub proof fn lemma_parts_cons(x: Seq<char>, rest: Seq<char>, sep: char)
    requires
        !x.contains(sep),
    ensures
        parts(x + seq![sep] + rest, sep) == seq![x] + parts(rest, sep),
{
    let s = x + seq![sep] + rest;
    lemma_up_to(s, sep);
    let k = up_to(s, sep) as int;
    assert(s[x.len() as int] == sep);
    if k < x.len() {
        assert(s[k] == x[k]);
        assert(x.contains(x[k]));
    }
    assert(s.take(k) =~= x);
    assert(s.skip(k + 1) =~= rest);
}

/// Text without the separator is one part.
pub proof fn lemma_parts_one(x: Seq<char>, sep: char)
    requires
        !x.contains(sep),
    ensures
        parts(x, sep) == seq![x],
{
    lemma_up_to(x, sep);
}

/// A separator between two texts separates their parts.
pub proof fn lemma_parts_join(x: Seq<char>, y: Seq<char>, sep: char)
    ensures
        parts(x + seq![sep] + y, sep) == parts(x, sep) + parts(y, sep),
    decreases x.len(),
{
    let k = up_to(x, sep) as int;
    lemma_up_to(x, sep);
    if k >= x.len() {
        lemma_parts_cons(x, y, sep);
    } else {
        let first = x.take(k);
        let rest = x.skip(k + 1);
        lemma_parts_join(rest, y, sep);
        assert(!first.contains(sep));
        assert(x + seq![sep] + y =~= first + seq![sep] + (rest + seq![sep] + y));
        lemma_parts_cons(first, rest + seq![sep] + y, sep);
        assert(parts(x + seq![sep] + y, sep) =~= parts(x, sep) + parts(y, sep));
    }
}

/// A character other than the separator lies within some part.
pub proof fn lemma_parts_hold(s: Seq<char>, sep: char, c: char)
    requires
        s.contains(c),
        c != sep,
    ensures
        exists|i: int| 0 <= i < parts(s, sep).len() && (#[trigger] parts(s, sep)[i]).contains(c),
    decreases s.len(),
{
    let k = up_to(s, sep) as int;
    let p = parts(s, sep);
    lemma_up_to(s, sep);
    let at = choose|i: int| 0 <= i < s.len() && s[i] == c;
    if k >= s.len() {
        assert(p[0].contains(c));
    } else if at < k {
        assert(s.take(k)[at] == c);
        assert(p[0].contains(c));
    } else {
        let rest = s.skip(k + 1);
        assert(rest[at - k - 1] == c);
        lemma_parts_hold(rest, sep, c);
        let j = choose|i: int|
            0 <= i < parts(rest, sep).len() && (#[trigger] parts(rest, sep)[i]).contains(c);
        assert(p[j + 1] == parts(rest, sep)[j]);
    }
}

/// Cuts `chars` at every `sep`.
pub fn split_parts(chars: &[char], sep: char) -> (r: Vec<Vec<char>>)
    ensures
        rows(r@) == parts(chars@, sep),
{
    let mut r: Vec<Vec<char>> = Vec::new();
    let mut pos: usize = 0;
    assert(chars@.skip(0) =~= chars@);
    assert(rows(r@) + parts(chars@, sep) =~= parts(chars@, sep));
    loop
        invariant
            pos <= chars@.len(),
            rows(r@) + parts(chars@.skip(pos as int), sep) == parts(chars@, sep),
        decreases chars@.len() - pos,
    {
        let end: usize = find(chars, pos, sep);
        let ghost s = chars@.skip(pos as int);
        let ghost before = rows(r@);
        assert(s.take(end - pos) =~= chars@.subrange(pos as int, end as int));
        r.push(copy_range(chars, pos, end));
        assert(rows(r@) =~= before.push(s.take(end - pos)));
        if end == chars.len() {
            assert(s.take(end - pos) =~= s);
            assert(rows(r@) =~= before + seq![s]);
            return r;
        }
        assert(s.skip(end - pos + 1) =~= chars@.skip(end + 1));
        assert(rows(r@) + parts(chars@.skip(end + 1), sep) =~= before + (seq![s.take(end - pos)]
            + parts(s.skip(end - pos + 1), sep)));
        pos = end + 1;
    }
}

/// A line without the carriage return that its line feed leaves at its end.
pub open spec fn without_cr(line: Seq<char>) -> Seq<char> {
    if line.len() > 0 && line.last() == '\r' {
        line.drop_last()
    } else {
        line
    }
}

/// The lines of `s`. A line ends at a line feed, which is not part of it, nor is a
/// carriage return right before it; the last line may lack the line feed.
pub open spec fn lines(s: Seq<char>) -> Seq<Seq<char>>
    decreases s.len(),
{
    let k = up_to(s, '\n') as int;
    if s.len() == 0 {
        Seq::empty()
    } else if k >= s.len() {
        seq![s]
    } else {
        seq![without_cr(s.take(k))] + lines(s.skip(k + 1))
    }
}

/// Cuts `chars` into lines.
pub fn split_lines(chars: &[char]) -> (r: Vec<Vec<char>>)
    ensures
        rows(r@) == lines(chars@),
{
    let mut r: Vec<Vec<char>> = Vec::new();
    let mut pos: usize = 0;
    assert(chars@.skip(0) =~= chars@);
    assert(rows(r@) + lines(chars@) =~= lines(chars@));
    while pos < chars.len()
        invariant
            pos <= chars@.len(),
            rows(r@) + lines(chars@.skip(pos as int)) == lines(chars@),
        decreases chars@.len() - pos,
    {
        let end: usize = find(chars, pos, '\n');
        let ghost s = chars@.skip(pos as int);
        let ghost before = rows(r@);
        if end == chars.len() {
            assert(s =~= chars@.subrange(pos as int, end as int));
            r.push(copy_range(chars, pos, end));
            assert(rows(r@) =~= before + seq![s]);
            return r;
        }
        let stop: usize = if end > pos && chars[end - 1] == '\r' {
            end - 1
        } else {
            end
        };
        assert(without_cr(s.take(end - pos)) =~= chars@.subrange(pos as int, stop as int));
        r.push(copy_range(chars, pos, stop));
        assert(rows(r@) =~= before.push(without_cr(s.take(end - pos))));
        assert(s.skip(end - pos + 1) =~= chars@.skip(end + 1));
        assert(rows(r@) + lines(chars@.skip(end + 1)) =~= before + (seq![
            without_cr(s.take(end - pos)),
        ] + lines(s.skip(end - pos + 1))));
        pos = end + 1;
    }
    assert(rows(r@) =~= lines(chars@));
    r
}

/// Where `pat` first occurs in `s`.
pub open spec fn first_at(s: Seq<char>, pat: Seq<char>) -> Option<nat>
    decreases s.len(),
{
    if s.len() >= pat.len() && s.take(pat.len() as int) == pat {
        Some(0)
    } else if s.len() == 0 {
        None
    } else {
        match first_at(s.skip(1), pat) {
            Some(k) => Some(k + 1),
            None => None,
        }
    }
}

/// A pattern does not occur in a shorter text.
proof fn lemma_too_short(s: Seq<char>, pat: Seq<char>)
    requires
        s.len() < pat.len(),
    ensures
        first_at(s, pat) is None,
    decreases s.len(),
{
    if s.len() > 0 {
        lemma_too_short(s.skip(1), pat);
    }
}

/// An occurrence with none before it is the first.
pub proof fn lemma_first_at(s: Seq<char>, pat: Seq<char>, k: int)
    requires
        0 <= k <= s.len() - pat.len(),
        s.subrange(k, k + pat.len()) == pat,
        forall|i: int| 0 <= i < k ==> #[trigger] s.subrange(i, i + pat.len()) != pat,
    ensures
        first_at(s, pat) == Some(k as nat),
    decreases s.len(),
{
    let n = pat.len() as int;
    assert(s.take(n) =~= s.subrange(0, 0 + n));
    if k > 0 {
        let rest = s.skip(1);
        assert(rest.subrange(k - 1, k - 1 + n) =~= s.subrange(k, k + n));
        assert forall|i: int| 0 <= i < k - 1 implies #[trigger] rest.subrange(i, i + n) != pat by {
            assert(rest.subrange(i, i + n) =~= s.subrange(i + 1, i + 1 + n));
        }
        lemma_first_at(rest, pat, k - 1);
    }
}

/// A pattern that stands at no position does not occur.
pub proof fn lemma_not_at(s: Seq<char>, pat: Seq<char>)
    requires
        forall|i: int| 0 <= i <= s.len() - pat.len() ==> #[trigger] s.subrange(i, i + pat.len())
            != pat,
    ensures
        first_at(s, pat) is None,
    decreases s.len(),
{
    let n = pat.len() as int;
    if s.len() < n {
        lemma_too_short(s, pat);
    } else {
        assert(s.take(n) =~= s.subrange(0, 0 + n));
        if s.len() > 0 {
            let rest = s.skip(1);
            assert forall|i: int| 0 <= i <= rest.len() - n implies #[trigger] rest.subrange(
                i,
                i + n,
            ) != pat by {
                assert(rest.subrange(i, i + n) =~= s.subrange(i + 1, i + 1 + n));
            }
            lemma_not_at(rest, pat);
        }
    }
}

/// The position of the first occurrence of `pat` in `s`.
pub fn find_pattern(s: &[char], pat: &[char]) -> (r: Option<usize>)
    ensures
        r == match first_at(s@, pat@) {
            Some(p) => Some(p as usize),
            None => None,
        },
        r matches Some(p) ==> p + pat@.len() <= s@.len() && first_at(s@, pat@) == Some(p as nat),
{
    let mut p: usize = 0;
    assert(s@.skip(0) =~= s@);
    loop
        invariant
            p <= s@.len(),
            first_at(s@, pat@) == match first_at(s@.skip(p as int), pat@) {
                Some(k) => Some(k + p as nat),
                None => None,
            },
        decreases s@.len() - p,
    {
        let ghost rest = s@.skip(p as int);
        if s.len() - p < pat.len() {
            proof {
                lemma_too_short(rest, pat@);
            }
            return None;
        }
        let mut same: bool = true;
        assert(rest.take(0) =~= pat@.take(0));
        for j in 0..pat.len()
            invariant
                p + pat@.len() <= s.len(),
                rest == s@.skip(p as int),
                same == (rest.take(j as int) == pat@.take(j as int)),
        {
            let ghost a = rest.take(j + 1);
            let ghost b = pat@.take(j + 1);
            proof {
                assert(a.drop_last() =~= rest.take(j as int));
                assert(b.drop_last() =~= pat@.take(j as int));
                assert(a.last() == s@[p + j]);
                if same && s@[p + j] == pat@[j as int] {
                    assert(a =~= b);
                }
            }
            if s[p + j] != pat[j] {
                same = false;
            }
        }
        assert(pat@.take(pat@.len() as int) =~= pat@);
        if same {
            return Some(p);
        }
        if p == s.len() {
            return None;
        }
        assert(rest.skip(1) =~= s@.skip(p + 1));
        p += 1;
    }
}

/// The parts, joined with the separator, are the text again, and none of them holds it.
pub proof fn law_parts_join_again(s: Seq<char>, sep: char)
    ensures
        text::joined(parts(s, sep), seq![sep]) == s,
        parts(s, sep).len() > 0,
        forall|i: int|
            0 <= i < parts(s, sep).len() ==> !(#[trigger] parts(s, sep)[i]).contains(sep),
    decreases s.len(),
{
    let k = up_to(s, sep) as int;
    let p = parts(s, sep);
    lemma_up_to(s, sep);
    if k >= s.len() {
        text::law_joining_goes_piece_by_piece(seq![s], seq![s], seq![sep]);
        assert(p =~= seq![s]);
    } else {
        let rest = s.skip(k + 1);
        law_parts_join_again(rest, sep);
        text::law_joining_goes_piece_by_piece(seq![s.take(k)], parts(rest, sep), seq![sep]);
        assert(s =~= s.take(k) + seq![sep] + rest);
        assert(!s.take(k).contains(sep));
        assert forall|i: int| 0 <= i < p.len() implies !(#[trigger] p[i]).contains(sep) by {
            if i > 0 {
                assert(p[i] == parts(rest, sep)[i - 1]);
            }
        }
    }
}

proof fn lemma_word_len_append(w: Seq<char>, rest: Seq<char>)
    requires
        forall|i: int| 0 <= i < w.len() ==> !is_space(#[trigger] w[i]),
        rest.len() > 0 ==> is_space(rest[0]),
    ensures
        word_len(w + rest) == w.len(),
    decreases w.len(),
{
    if w.len() == 0 {
        assert(w + rest =~= rest);
    } else {
        let more = w.skip(1);
        assert forall|i: int| 0 <= i < more.len() implies !is_space(#[trigger] more[i]) by {
            assert(more[i] == w[i + 1]);
        }
        lemma_word_len_append(more, rest);
        assert((w + rest).skip(1) =~= more + rest);
    }
}

/// White space has no words, and a text without white space is one word.
pub proof fn law_a_word_is_its_word(before: Seq<char>, w: Seq<char>)
    requires
        all_space(before),
        forall|i: int| 0 <= i < w.len() ==> !is_space(#[trigger] w[i]),
    ensures
        words(before) == Seq::<Seq<char>>::empty(),
        w.len() > 0 ==> words(w) == seq![w],
{
    let none = Seq::<char>::empty();
    lemma_trim_start(before, none);
    assert(before + none =~= before);
    assert(words(before) =~= Seq::<Seq<char>>::empty());
    if w.len() > 0 {
        lemma_word_len_append(w, none);
        assert(w + none =~= w);
        assert(trim_start(w) == w);
        assert(w.take(w.len() as int) =~= w);
        assert(w.skip(w.len() as int) =~= none);
        assert(words(none) =~= Seq::<Seq<char>>::empty());
        assert(words(w) =~= seq![w]);
    }
}

/// White space between two texts separates their words: those of the first come first, and none
/// is lost, changed or joined.
pub proof fn law_white_space_separates_words(a: Seq<char>, c: char, b: Seq<char>)
    requires
        is_space(c),
    ensures
        words(a + seq![c] + b) == words(a) + words(b),
    decreases a.len(),
{
    let s = a + seq![c] + b;
    let none = Seq::<char>::empty();
    if a.len() == 0 {
        assert(s =~= seq![c] + b);
        lemma_trim_start(seq![c], b);
        assert(words(a) =~= Seq::<Seq<char>>::empty());
        assert(words(s) =~= words(a) + words(b));
    } else if is_space(a[0]) {
        law_white_space_separates_words(a.skip(1), c, b);
        assert(s.skip(1) =~= a.skip(1) + seq![c] + b);
        assert(trim_start(s) == trim_start(s.skip(1)));
        assert(trim_start(a) == trim_start(a.skip(1)));
        assert(words(s) == words(s.skip(1)));
        assert(words(a) == words(a.skip(1)));
    } else {
        let k = word_len(a) as int;
        lemma_word_len(a);
        lemma_word_stop(a);
        let w = a.take(k);
        let more = a.skip(k);
        assert(more + seq![c] + b =~= s.skip(k));
        assert(s =~= w + (more + seq![c] + b));
        lemma_word_len_append(w, more + seq![c] + b);
        assert(trim_start(s) == s);
        assert(trim_start(a) == a);
        assert(s.take(k) =~= w);
        law_white_space_separates_words(more, c, b);
        assert(words(s) =~= seq![w] + words(s.skip(k)));
        assert(words(s) =~= words(a) + words(b));
    }
}

proof fn lemma_word_stop(s: Seq<char>)
    ensures
        word_len(s) <= s.len(),
        word_len(s) < s.len() ==> is_space(s[word_len(s) as int]),
        s.len() > 0 && !is_space(s[0]) ==> word_len(s) > 0,
        forall|i: int| 0 <= i < word_len(s) ==> !is_space(#[trigger] s[i]),
    decreases s.len(),
{
    if s.len() > 0 && !is_space(s[0]) {
        lemma_word_stop(s.skip(1));
        assert forall|i: int| 0 <= i < word_len(s) implies !is_space(#[trigger] s[i]) by {
            if i > 0 {
                assert(s[i] == s.skip(1)[i - 1]);
            }
        }
    }
}

/// A line ends at a line feed, or at a carriage return and a line feed; neither belongs to it. The
/// last line needs no end and is taken as it stands, and after the last end there is no further
/// line.
pub proof fn law_lines_end_at_line_feeds(l: Seq<char>, rest: Seq<char>)
    requires
        !l.contains('\n'),
    ensures
        l.len() == 0 || l.last() != '\r' ==> lines(l + seq!['\n'] + rest) == seq![l] + lines(rest),
        lines(l + seq!['\r', '\n'] + rest) == seq![l] + lines(rest),
        l.len() > 0 ==> lines(l) == seq![l],
        lines(Seq::empty()) == Seq::<Seq<char>>::empty(),
{
    assert(lines(Seq::empty()) =~= Seq::<Seq<char>>::empty());
    lemma_up_to(l, '\n');
    lemma_line(l, rest);
    let r = l.push('\r');
    assert(!r.contains('\n')) by {
        if r.contains('\n') {
            let i = choose|i: int| 0 <= i < r.len() && r[i] == '\n';
            assert(l[i] == '\n');
            assert(l.contains(l[i]));
        }
    }
    lemma_line(r, rest);
    assert(l + seq!['\r', '\n'] + rest =~= r + seq!['\n'] + rest);
    assert(without_cr(r) =~= l);
}

proof fn lemma_line(l: Seq<char>, rest: Seq<char>)
    requires
        !l.contains('\n'),
    ensures
        lines(l + seq!['\n'] + rest) == seq![without_cr(l)] + lines(rest),
{
    let s = l + seq!['\n'] + rest;
    lemma_up_to(s, '\n');
    let k = up_to(s, '\n') as int;
    assert(s[l.len() as int] == '\n');
    if k < l.len() {
        assert(s[k] == l[k]);
        assert(l.contains(l[k]));
    }
    assert(s.take(k) =~= l);
    assert(s.skip(k + 1) =~= rest);
}

/// A text that begins with no white space has a first word, which begins as the text does.
pub proof fn lemma_first_word_begins(s: Seq<char>)
    requires
        s.len() > 0,
        !is_space(s[0]),
    ensures
        words(s).len() > 0,
        words(s)[0].len() > 0,
        words(s)[0][0] == s[0],
{
    lemma_word_stop(s);
    assert(trim_start(s) == s);
}

/// White space are the control characters from tab to carriage return, the space, and the other
/// spaces and separators of Unicode: twenty-five characters in all.
pub proof fn law_white_space_characters(c: char)
    ensures
        is_space(c) <==> c == '\t' || c == '\n' || c == '\u{b}' || c == '\u{c}' || c == '\r' || c
            == ' ' || c == '\u{85}' || c == '\u{a0}' || c == '\u{1680}' || c == '\u{2000}' || c
            == '\u{2001}' || c == '\u{2002}' || c == '\u{2003}' || c == '\u{2004}' || c
            == '\u{2005}' || c == '\u{2006}' || c == '\u{2007}' || c == '\u{2008}' || c
            == '\u{2009}' || c == '\u{200a}' || c == '\u{2028}' || c == '\u{2029}' || c
            == '\u{202f}' || c == '\u{205f}' || c == '\u{3000}',
{
}

} // verus!
