//! JSON strings: escaping them, and reading one field.
use crate::syntax;
use crate::text;
use crate::words;
use vstd::prelude::*;

verus! {

/// How a character stands in a JSON string.
pub open spec fn escape_char(c: char) -> Seq<char> {
    if c == '"' {
        seq!['\\', '"']
    } else if c == '\\' {
        seq!['\\', '\\']
    } else if c == '\n' {
        seq!['\\', 'n']
    } else if c == '\r' {
        seq!['\\', 'r']
    } else if c == '\t' {
        seq!['\\', 't']
    } else if (c as u32) < 0x20 {
        seq![
            '\\',
            'u',
            '0',
            '0',
            text::digit_char((c as u32 / 16) as nat),
            text::digit_char((c as u32 % 16) as nat),
        ]
    } else {
        seq![c]
    }
}

/// How a text stands in a JSON string.
pub open spec fn escaped(s: Seq<char>) -> Seq<char>
    decreases s.len(),
{
    if s.len() == 0 {
        Seq::empty()
    } else {
        escape_char(s[0]) + escaped(s.skip(1))
    }
}

fn hex_digit(d: u32) -> (c: char)
    requires
        d < 16,
    ensures
        c == text::digit_char(d as nat),
{
    if d < 10 {
        (48 + d as u8) as char
    } else {
        (87 + d as u8) as char
    }
}

fn push_escaped(c: char, out: &mut String)
    ensures
        final(out)@ == old(out)@ + escape_char(c),
{
    let u: u32 = c as u32;
    if c == '"' {
        out.push('\\');
        out.push('"');
    } else if c == '\\' {
        out.push('\\');
        out.push('\\');
    } else if c == '\n' {
        out.push('\\');
        out.push('n');
    } else if c == '\r' {
        out.push('\\');
        out.push('r');
    } else if c == '\t' {
        out.push('\\');
        out.push('t');
    } else if u < 0x20 {
        out.push('\\');
        out.push('u');
        out.push('0');
        out.push('0');
        out.push(hex_digit(u / 16));
        out.push(hex_digit(u % 16));
    } else {
        out.push(c);
    }
    assert(out@ =~= old(out)@ + escape_char(c));
}

/// Appends `s` to `out` as it stands in a JSON string.
pub fn json_escape(s: &str, out: &mut String)
    ensures
        final(out)@ == old(out)@ + escaped(s@),
{
    let chars = text::chars_of(s);
    let ghost before = out@;
    assert(chars@.skip(0) =~= chars@);
    for i in 0..chars.len()
        invariant
            chars@ == s@,
            out@ + escaped(chars@.skip(i as int)) == before + escaped(s@),
    {
        let ghost rest = chars@.skip(i as int);
        let ghost so_far = out@;
        assert(rest.skip(1) =~= chars@.skip(i + 1));
        push_escaped(chars[i], out);
        assert(out@ + escaped(chars@.skip(i + 1)) =~= so_far + escaped(rest));
    }
    assert(out@ + escaped(chars@.skip(chars@.len() as int)) =~= out@);
}

/// The text that a JSON string stands for, by the rules of JSON: no raw quote, no raw
/// control character, and a backslash only before what it may escape. Surrogate pairs are
/// left out.
pub open spec fn decoded(t: Seq<char>) -> Option<Seq<char>>
    decreases t.len(),
{
    if t.len() == 0 {
        Some(Seq::empty())
    } else if t[0] == '"' || (t[0] as u32) < 0x20 {
        None
    } else if t[0] != '\\' {
        match decoded(t.skip(1)) {
            Some(r) => Some(seq![t[0]] + r),
            None => None,
        }
    } else if t.len() >= 6 && t[1] == 'u' {
        match (text::digits_value(t.subrange(2, 6), 16), decoded(t.skip(6))) {
            (Some(v), Some(r)) => if v < 0xd800 || v > 0xdfff {
                Some(seq![v as char] + r)
            } else {
                None
            },
            _ => None,
        }
    } else if t.len() >= 2 {
        match (simple_escape(t[1]), decoded(t.skip(2))) {
            (Some(c), Some(r)) => Some(seq![c] + r),
            _ => None,
        }
    } else {
        None
    }
}

/// What a backslash and `c` stand for.
pub open spec fn simple_escape(c: char) -> Option<char> {
    if c == '"' || c == '\\' || c == '/' {
        Some(c)
    } else if c == 'n' {
        Some('\n')
    } else if c == 'r' {
        Some('\r')
    } else if c == 't' {
        Some('\t')
    } else if c == 'b' {
        Some(8 as char)
    } else if c == 'f' {
        Some(12 as char)
    } else {
        None
    }
}

/// An escaped text is a JSON string for that text, whatever the text holds.
pub proof fn law_escaped_text_decodes_back(s: Seq<char>)
    ensures
        decoded(escaped(s)) == Some(s),
    decreases s.len(),
{
    if s.len() > 0 {
        law_escaped_text_decodes_back(s.skip(1));
        let c = s[0];
        let e = escape_char(c);
        let rest = escaped(s.skip(1));
        let t = escaped(s);
        assert(seq![c] + s.skip(1) =~= s);
        assert(t =~= e + rest);
        assert(t.skip(e.len() as int) =~= rest);
        if e.len() == 6 {
            let d = t.subrange(2, 6);
            let hi = (c as u32 / 16) as nat;
            let lo = (c as u32 % 16) as nat;
            let d1 = seq!['0'];
            let d2 = seq!['0', '0'];
            let d3 = seq!['0', '0', text::digit_char(hi)];
            assert(d =~= d3.push(text::digit_char(lo)));
            assert(d.drop_last() =~= d3);
            assert(d3.drop_last() =~= d2);
            assert(d2.drop_last() =~= d1);
            assert(d1.drop_last() =~= Seq::<char>::empty());
            assert(text::digits_value(d1.drop_last(), 16) == Some(0nat));
            assert(text::digits_value(d1, 16) == Some(0nat));
            assert(text::digits_value(d2, 16) == Some(0nat));
            assert(text::digit_value(text::digit_char(hi), 16) == Some(hi));
            assert(text::digit_value(text::digit_char(lo), 16) == Some(lo));
            assert(text::digits_value(d3, 16) == Some(hi));
            assert(text::digits_value(d, 16) == Some(hi * 16 + lo));
            assert(hi * 16 + lo == c as u32);
            vstd::utf8::char_u32_cast(c, c as u32);
            assert((hi * 16 + lo) as char == c);
            assert(decoded(t) == Some(seq![c] + s.skip(1)));
        } else if e.len() == 2 {
            assert(t[0] == '\\' && t[1] == e[1] && t[1] != 'u');
            assert(simple_escape(t[1]) == Some(c));
            assert(decoded(t) == Some(seq![c] + s.skip(1)));
        } else {
            assert(t[0] == c);
            assert(decoded(t) == Some(seq![c] + s.skip(1)));
        }
    }
}

/// Escaping goes character by character: a text in two parts is escaped part by part.
pub proof fn law_escaping_distributes(a: Seq<char>, b: Seq<char>)
    ensures
        escaped(a + b) == escaped(a) + escaped(b),
    decreases a.len(),
{
    if a.len() == 0 {
        assert(a + b =~= b);
        assert(escaped(a) + escaped(b) =~= escaped(b));
    } else {
        law_escaping_distributes(a.skip(1), b);
        assert((a + b).skip(1) =~= a.skip(1) + b);
        assert(escaped(a + b) =~= escaped(a) + escaped(b));
    }
}

/// Escaped text holds no control character below the space.
pub proof fn law_escaped_text_holds_no_control_character(s: Seq<char>, i: int)
    requires
        0 <= i < escaped(s).len(),
    ensures
        escaped(s)[i] as u32 >= 0x20,
    decreases s.len(),
{
    let e = escape_char(s[0]);
    if i < e.len() {
        assert(escaped(s)[i] == e[i]);
    } else {
        law_escaped_text_holds_no_control_character(s.skip(1), i - e.len());
    }
}

/// `s` after the character `c`, if it begins with it.
pub open spec fn after_char(s: Seq<char>, c: char) -> Option<Seq<char>> {
    if s.len() > 0 && s[0] == c {
        Some(s.skip(1))
    } else {
        None
    }
}

/// What a backslash and `c` stand for when a field is read.
pub open spec fn loose_escape(c: char) -> char {
    if c == 'n' {
        '\n'
    } else if c == 't' {
        '\t'
    } else if c == 'r' {
        '\r'
    } else {
        c
    }
}

/// The text up to the closing quote of a JSON string whose opening quote is passed.
pub open spec fn quoted(t: Seq<char>) -> Option<Seq<char>>
    decreases t.len(),
{
    if t.len() == 0 {
        None
    } else if t[0] == '"' {
        Some(Seq::empty())
    } else if t[0] == '\\' {
        if t.len() < 2 {
            None
        } else {
            match quoted(t.skip(2)) {
                Some(r) => Some(seq![loose_escape(t[1])] + r),
                None => None,
            }
        }
    } else {
        match quoted(t.skip(1)) {
            Some(r) => Some(seq![t[0]] + r),
            None => None,
        }
    }
}

/// How many characters stand before the closing quote of a JSON string whose opening quote is
/// passed.
pub open spec fn raw_len(t: Seq<char>) -> Option<nat>
    decreases t.len(),
{
    if t.len() == 0 {
        None
    } else if t[0] == '"' {
        Some(0)
    } else if t[0] == '\\' {
        if t.len() < 2 {
            None
        } else {
            match raw_len(t.skip(2)) {
                Some(n) => Some(n + 2),
                None => None,
            }
        }
    } else {
        match raw_len(t.skip(1)) {
            Some(n) => Some(n + 1),
            None => None,
        }
    }
}

proof fn lemma_raw_len(t: Seq<char>)
    ensures
        raw_len(t) matches Some(n) ==> n < t.len() && t[n as int] == '"',
    decreases t.len(),
{
    if t.len() > 0 && t[0] != '"' {
        if t[0] == '\\' {
            if t.len() >= 2 {
                lemma_raw_len(t.skip(2));
            }
        } else {
            lemma_raw_len(t.skip(1));
        }
    }
}

/// What follows the colon, where one stands in front, with white space allowed before it.
pub open spec fn after_colon(s: Seq<char>) -> Option<Seq<char>> {
    after_char(words::trim_start(s), ':')
}

/// The quoted text that stands in front, with white space allowed before it.
pub open spec fn text_in_front(s: Seq<char>) -> Option<Seq<char>> {
    match after_char(words::trim_start(s), '"') {
        Some(u) => quoted(u),
        None => None,
    }
}

/// The depth after the character `c` outside a string.
pub open spec fn depth_after(c: char, depth: nat) -> nat {
    if c == '{' || c == '[' {
        depth + 1
    } else if (c == '}' || c == ']') && depth > 0 {
        (depth - 1) as nat
    } else {
        depth
    }
}

/// The text of the first field `key` at the top level of `s`, which begins inside `depth` braces
/// and brackets; none where that field holds something else. A quoted string is passed over as a
/// unit, so neither a value nor what is nested deeper counts as the key.
pub open spec fn find_field(s: Seq<char>, depth: nat, key: Seq<char>) -> Option<Seq<char>>
    decreases s.len(),
    via find_field_decreases
{
    if s.len() == 0 {
        None
    } else if s[0] == '"' {
        match raw_len(s.skip(1)) {
            None => None,
            Some(n) => {
                let rest = s.skip(n as int + 2);
                match after_colon(rest) {
                    Some(t) => if depth <= 1 && s.subrange(1, n as int + 1) == key {
                        text_in_front(t)
                    } else {
                        find_field(rest, depth, key)
                    },
                    None => find_field(rest, depth, key),
                }
            },
        }
    } else {
        find_field(s.skip(1), depth_after(s[0], depth), key)
    }
}

#[via_fn]
proof fn find_field_decreases(s: Seq<char>, depth: nat, key: Seq<char>) {
    if s.len() > 0 {
        lemma_raw_len(s.skip(1));
    }
}

/// The text that follows the first quoted `key` and a colon, wherever it stands.
pub open spec fn loose_field(s: Seq<char>, key: Seq<char>) -> Option<Seq<char>> {
    let pat = seq!['"'] + key + seq!['"'];
    match words::first_at(s, pat) {
        Some(p) => match after_colon(s.skip((p + pat.len()) as int)) {
            Some(t) => text_in_front(t),
            None => None,
        },
        None => None,
    }
}

/// The value of the top-level string field `key`: a quoted key within the outermost braces, a
/// colon and a quoted text. The key is compared as it stands between its quotes. A text that is
/// no JSON, such as one that was cut off, has no levels: there the first quoted key counts.
pub open spec fn top_field(s: Seq<char>, key: Seq<char>) -> Option<Seq<char>> {
    if syntax::is_json(s) {
        find_field(s, 0, key)
    } else {
        loose_field(s, key)
    }
}

/// The number of characters before the closing quote, see [`raw_len`].
fn raw_length(s: &[char], from: usize) -> (r: Option<usize>)
    requires
        from <= s@.len(),
    ensures
        match (r, raw_len(s@.skip(from as int))) {
            (Some(a), Some(b)) => a == b && from + a < s@.len(),
            (None, None) => true,
            _ => false,
        },
{
    let mut i: usize = from;
    while i < s.len()
        invariant
            from <= i <= s@.len(),
            raw_len(s@.skip(from as int)) == match raw_len(s@.skip(i as int)) {
                Some(n) => Some((n + i - from) as nat),
                None => None,
            },
        decreases s@.len() - i,
    {
        let ghost t = s@.skip(i as int);
        if s[i] == '"' {
            return Some(i - from);
        }
        if s[i] == '\\' {
            if s.len() - i < 2 {
                return None;
            }
            assert(t.skip(2) =~= s@.skip(i + 2));
            i += 2;
        } else {
            assert(t.skip(1) =~= s@.skip(i + 1));
            i += 1;
        }
    }
    None
}

/// Where the part after the colon begins, see [`after_colon`].
fn colon_end(s: &[char], from: usize) -> (r: Option<usize>)
    requires
        from <= s@.len(),
    ensures
        match (r, after_colon(s@.skip(from as int))) {
            (Some(a), Some(t)) => a <= s@.len() && s@.skip(a as int) == t,
            (None, None) => true,
            _ => false,
        },
{
    let at: usize = words::skip_space(s, from);
    if at == s.len() || s[at] != ':' {
        return None;
    }
    assert(s@.skip(at as int).skip(1) =~= s@.skip(at + 1));
    Some(at + 1)
}

/// Whether `s[from..from + n]` is `key`.
fn stands_at(s: &[char], from: usize, n: usize, key: &[char]) -> (r: bool)
    requires
        from + n <= s@.len(),
    ensures
        r == (s@.subrange(from as int, from + n) == key@),
{
    if n != key.len() {
        return false;
    }
    for j in 0..n
        invariant
            n == key@.len(),
            from + n <= s.len(),
            forall|i: int| 0 <= i < j ==> s@[from + i] == key@[i],
    {
        if s[from + j] != key[j] {
            assert(s@.subrange(from as int, from + n)[j as int] != key@[j as int]);
            return false;
        }
    }
    assert(s@.subrange(from as int, from + n) =~= key@);
    true
}

/// Reads the text up to the closing quote, see [`quoted`].
fn read_quoted(s: &[char], from: usize) -> (r: Option<String>)
    requires
        from <= s@.len(),
    ensures
        match (r, quoted(s@.skip(from as int))) {
            (Some(a), Some(b)) => a@ == b,
            (None, None) => true,
            _ => false,
        },
{
    let ghost want = quoted(s@.skip(from as int));
    let mut out = String::new();
    let mut i: usize = from;
    proof {
        if let Some(q) = want {
            assert(out@ + q =~= q);
        }
    }
    while i < s.len()
        invariant
            from <= i <= s@.len(),
            match quoted(s@.skip(i as int)) {
                Some(q) => want == Some(out@ + q),
                None => want is None,
            },
            want == quoted(s@.skip(from as int)),
        decreases s@.len() - i,
    {
        let ghost t = s@.skip(i as int);
        let ghost so_far = out@;
        let c = s[i];
        if c == '"' {
            assert(out@ + Seq::<char>::empty() =~= out@);
            return Some(out);
        }
        if c == '\\' {
            if s.len() - i < 2 {
                return None;
            }
            let e = s[i + 1];
            assert(t.skip(2) =~= s@.skip(i + 2));
            out.push(
                if e == 'n' {
                    '\n'
                } else if e == 't' {
                    '\t'
                } else if e == 'r' {
                    '\r'
                } else {
                    e
                },
            );
            i += 2;
            proof {
                if let Some(q) = quoted(s@.skip(i as int)) {
                    assert(out@ + q =~= so_far + (seq![loose_escape(e)] + q));
                }
            }
        } else {
            assert(t.skip(1) =~= s@.skip(i + 1));
            out.push(c);
            i += 1;
            proof {
                if let Some(q) = quoted(s@.skip(i as int)) {
                    assert(out@ + q =~= so_far + (seq![c] + q));
                }
            }
        }
    }
    None
}

/// Reads the quoted text at `from`, see [`text_in_front`].
fn read_text(s: &[char], from: usize) -> (r: Option<String>)
    requires
        from <= s@.len(),
    ensures
        match (r, text_in_front(s@.skip(from as int))) {
            (Some(a), Some(b)) => a@ == b,
            (None, None) => true,
            _ => false,
        },
{
    let open: usize = words::skip_space(s, from);
    if open == s.len() || s[open] != '"' {
        return None;
    }
    assert(s@.skip(open as int).skip(1) =~= s@.skip(open + 1));
    read_quoted(s, open + 1)
}

/// Reads the first top-level field, see [`find_field`].
fn read_field(s: &[char], key: &[char]) -> (r: Option<String>)
    ensures
        match (r, find_field(s@, 0, key@)) {
            (Some(a), Some(b)) => a@ == b,
            (None, None) => true,
            _ => false,
        },
{
    let mut i: usize = 0;
    let mut depth: usize = 0;
    assert(s@.skip(0) =~= s@);
    while i < s.len()
        invariant
            depth <= i <= s@.len(),
            find_field(s@.skip(i as int), depth as nat, key@) == find_field(s@, 0, key@),
        decreases s@.len() - i,
    {
        let ghost t = s@.skip(i as int);
        assert(t.skip(1) =~= s@.skip(i + 1));
        let c = s[i];
        if c == '"' {
            match raw_length(s, i + 1) {
                None => {
                    return None;
                },
                Some(n) => {
                    let end: usize = i + 1 + n;
                    assert(t.skip(n + 2) =~= s@.skip(end + 1));
                    assert(t.subrange(1, n + 1) =~= s@.subrange(i + 1, i + 1 + n));
                    match colon_end(s, end + 1) {
                        Some(at) => {
                            if depth <= 1 && stands_at(s, i + 1, n, key) {
                                return read_text(s, at);
                            }
                        },
                        None => {},
                    }
                    i = end + 1;
                },
            }
        } else {
            if c == '{' || c == '[' {
                depth += 1;
            } else if (c == '}' || c == ']') && depth > 0 {
                depth -= 1;
            }
            i += 1;
        }
    }
    None
}

/// Reads what follows the first quoted key, see [`loose_field`].
fn read_loose_field(s: &[char], key: &[char]) -> (r: Option<String>)
    ensures
        match (r, loose_field(s@, key@)) {
            (Some(a), Some(b)) => a@ == b,
            (None, None) => true,
            _ => false,
        },
{
    let mut pat: Vec<char> = Vec::new();
    pat.push('"');
    for i in 0..key.len()
        invariant
            pat@ == seq!['"'] + key@.take(i as int),
    {
        pat.push(key[i]);
        assert(pat@ =~= seq!['"'] + key@.take(i + 1));
    }
    pat.push('"');
    assert(pat@ =~= seq!['"'] + key@ + seq!['"']);
    match words::find_pattern(s, pat.as_slice()) {
        None => None,
        Some(p) => {
            assert(p + pat@.len() <= s.len());
            match colon_end(s, p + pat.len()) {
                Some(at) => read_text(s, at),
                None => None,
            }
        },
    }
}

/// Reads the top-level string field `key` of `text`, see [`top_field`].
pub fn extract_json_string(text: &str, key: &str) -> (r: Option<String>)
    ensures
        match (r, top_field(text@, key@)) {
            (Some(a), Some(b)) => a@ == b,
            (None, None) => true,
            _ => false,
        },
{
    let chars = text::chars_of(text);
    let name = text::chars_of(key);
    if syntax::check_json(chars.as_slice()) {
        read_field(chars.as_slice(), name.as_slice())
    } else {
        read_loose_field(chars.as_slice(), name.as_slice())
    }
}

/// Text whose escapes a field reader understands: of the control characters it holds only
/// tab, line feed and carriage return.
pub open spec fn printable(v: Seq<char>) -> bool {
    forall|i: int|
        0 <= i < v.len() ==> (#[trigger] v[i] as u32) >= 0x20 || v[i] == '\n' || v[i] == '\r'
            || v[i] == '\t'
}

proof fn lemma_quoted_escaped(v: Seq<char>, rest: Seq<char>)
    requires
        printable(v),
    ensures
        quoted(escaped(v) + seq!['"'] + rest) == Some(v),
    decreases v.len(),
{
    let t = escaped(v) + seq!['"'] + rest;
    if v.len() == 0 {
        assert(t[0] == '"');
        assert(v =~= Seq::<char>::empty());
    } else {
        let c = v[0];
        assert(printable(v.skip(1))) by {
            assert forall|i: int| 0 <= i < v.skip(1).len() implies (#[trigger] v.skip(1)[i] as u32)
                >= 0x20 || v.skip(1)[i] == '\n' || v.skip(1)[i] == '\r' || v.skip(1)[i]
                == '\t' by {
                assert(v.skip(1)[i] == v[i + 1]);
            }
        }
        lemma_quoted_escaped(v.skip(1), rest);
        let e = escape_char(c);
        let u = escaped(v.skip(1)) + seq!['"'] + rest;
        assert(t =~= e + u);
        assert(t.skip(e.len() as int) =~= u);
        assert(seq![c] + v.skip(1) =~= v);
    }
}

/// A JSON value.
pub enum Value {
    Text(Seq<char>),
    /// A number, a truth value or null, as it is written.
    Bare(Seq<char>),
    List(Seq<Value>),
    Object(Seq<Field>),
}

/// A field of a JSON object.
pub struct Field {
    pub name: Seq<char>,
    pub value: Value,
}

/// Whether `w` is a number or a word of JSON, in one piece.
pub open spec fn is_bare(w: Seq<char>) -> bool {
    syntax::is_literal(w) && syntax::bare_len(w) == w.len()
}

/// Whether all bare values within can be written as they are.
pub open spec fn writable(v: Value) -> bool
    decreases v,
{
    match v {
        Value::Text(_) => true,
        Value::Bare(w) => is_bare(w),
        Value::List(l) => forall|i: int| 0 <= i < l.len() ==> writable(#[trigger] l[i]),
        Value::Object(f) => forall|i: int| 0 <= i < f.len() ==> writable((#[trigger] f[i]).value),
    }
}

/// A text in quotes.
pub open spec fn in_quotes(t: Seq<char>) -> Seq<char> {
    seq!['"'] + escaped(t) + seq!['"']
}

/// How a JSON value is written, without white space between its parts.
pub open spec fn written(v: Value) -> Seq<char>
    decreases v,
{
    match v {
        Value::Text(t) => in_quotes(t),
        Value::Bare(w) => w,
        Value::List(l) => seq!['['] + written_list(l) + seq![']'],
        Value::Object(f) => seq!['{'] + written_fields(f) + seq!['}'],
    }
}

/// How the elements of a list are written.
pub open spec fn written_list(l: Seq<Value>) -> Seq<char>
    decreases l,
{
    if l.len() == 0 {
        Seq::empty()
    } else if l.len() == 1 {
        written(l[0])
    } else {
        written(l[0]) + (seq![','] + written_list(l.subrange(1, l.len() as int)))
    }
}

/// How the fields of an object are written.
pub open spec fn written_fields(f: Seq<Field>) -> Seq<char>
    decreases f,
{
    if f.len() == 0 {
        Seq::empty()
    } else if f.len() == 1 {
        in_quotes(f[0].name) + (seq![':'] + written(f[0].value))
    } else {
        in_quotes(f[0].name) + (seq![':'] + (written(f[0].value) + (seq![','] + written_fields(
            f.subrange(1, f.len() as int),
        ))))
    }
}

/// The text of the first field that is called `key`, if it holds one.
pub open spec fn first_text(f: Seq<Field>, key: Seq<char>) -> Option<Seq<char>>
    decreases f.len(),
{
    if f.len() == 0 {
        None
    } else if f[0].name == key {
        match f[0].value {
            Value::Text(t) => Some(t),
            _ => None,
        }
    } else {
        first_text(f.subrange(1, f.len() as int), key)
    }
}

/// An escaped text ends at the quote after it.
proof fn lemma_raw_escaped(t: Seq<char>, rest: Seq<char>)
    ensures
        raw_len(escaped(t) + seq!['"'] + rest) == Some(escaped(t).len()),
    decreases t.len(),
{
    let s = escaped(t) + seq!['"'] + rest;
    if t.len() == 0 {
        assert(s[0] == '"');
    } else {
        let e = escape_char(t[0]);
        let u = escaped(t.skip(1)) + seq!['"'] + rest;
        lemma_raw_escaped(t.skip(1), rest);
        assert(s =~= e + u);
        if e.len() == 1 {
            assert(s.skip(1) =~= u);
        } else {
            assert(s[0] == '\\');
            if e.len() == 2 {
                assert(s.skip(2) =~= u);
            } else {
                let a = s.skip(2);
                let b = a.skip(1);
                let c = b.skip(1);
                let d = c.skip(1);
                assert(d.skip(1) =~= u);
                assert(a[0] == e[2] && b[0] == e[3] && c[0] == e[4] && d[0] == e[5]);
                assert(raw_len(d) == Some((raw_len(u)->0 + 1) as nat));
                assert(raw_len(c) == Some((raw_len(u)->0 + 2) as nat));
                assert(raw_len(b) == Some((raw_len(u)->0 + 3) as nat));
                assert(raw_len(a) == Some((raw_len(u)->0 + 4) as nat));
            }
        }
    }
}

/// A quoted text is passed over, unless it is the key of a field.
proof fn lemma_pass_quotes(t: Seq<char>, rest: Seq<char>, depth: nat, key: Seq<char>)
    requires
        depth >= 2 || after_colon(rest) is None || escaped(t) != key,
    ensures
        find_field(in_quotes(t) + rest, depth, key) == find_field(rest, depth, key),
{
    let s = in_quotes(t) + rest;
    let n = escaped(t).len() as int;
    assert(s.skip(1) =~= escaped(t) + seq!['"'] + rest);
    lemma_raw_escaped(t, rest);
    assert(s[0] == '"');
    assert(s.skip(n + 2) =~= rest);
    assert(s.subrange(1, n + 1) =~= escaped(t));
}

/// A character outside strings, braces and brackets is passed over.
proof fn lemma_pass_char(c: char, rest: Seq<char>, depth: nat, key: Seq<char>)
    requires
        c != '"',
    ensures
        find_field(seq![c] + rest, depth, key) == find_field(rest, depth_after(c, depth), key),
{
    assert((seq![c] + rest).skip(1) =~= rest);
}

proof fn lemma_pass_bare(w: Seq<char>, rest: Seq<char>, depth: nat, key: Seq<char>)
    requires
        forall|i: int|
            0 <= i < w.len() ==> #[trigger] w[i] != '"' && w[i] != '{' && w[i] != '}' && w[i]
                != '[' && w[i] != ']',
    ensures
        find_field(w + rest, depth, key) == find_field(rest, depth, key),
    decreases w.len(),
{
    if w.len() == 0 {
        assert(w + rest =~= rest);
    } else {
        let more = w.skip(1);
        assert forall|i: int| 0 <= i < more.len() implies #[trigger] more[i] != '"' && more[i]
            != '{' && more[i] != '}' && more[i] != '[' && more[i] != ']' by {
            assert(more[i] == w[i + 1]);
        }
        lemma_pass_bare(more, rest, depth, key);
        assert(w + rest =~= seq![w[0]] + (more + rest));
        lemma_pass_char(w[0], more + rest, depth, key);
    }
}

/// A value is passed over: below the top level always, and at the top level where no colon
/// makes it a key.
proof fn lemma_pass_value(v: Value, rest: Seq<char>, depth: nat, key: Seq<char>)
    requires
        writable(v),
        depth >= 1,
        depth >= 2 || after_colon(rest) is None,
    ensures
        find_field(written(v) + rest, depth, key) == find_field(rest, depth, key),
    decreases v,
{
    match v {
        Value::Text(t) => {
            lemma_pass_quotes(t, rest, depth, key);
        },
        Value::Bare(w) => {
            syntax::lemma_bare_len(w);
            lemma_pass_bare(w, rest, depth, key);
        },
        Value::List(l) => {
            let tail = seq![']'] + rest;
            assert(written(v) + rest =~= seq!['['] + (written_list(l) + tail));
            lemma_pass_char('[', written_list(l) + tail, depth, key);
            lemma_pass_list(l, tail, depth + 1, key);
            lemma_pass_char(']', rest, depth + 1, key);
        },
        Value::Object(f) => {
            let tail = seq!['}'] + rest;
            assert(written(v) + rest =~= seq!['{'] + (written_fields(f) + tail));
            lemma_pass_char('{', written_fields(f) + tail, depth, key);
            lemma_pass_fields(f, tail, depth + 1, key);
            lemma_pass_char('}', rest, depth + 1, key);
        },
    }
}

proof fn lemma_pass_list(l: Seq<Value>, rest: Seq<char>, depth: nat, key: Seq<char>)
    requires
        forall|i: int| 0 <= i < l.len() ==> writable(#[trigger] l[i]),
        depth >= 2,
    ensures
        find_field(written_list(l) + rest, depth, key) == find_field(rest, depth, key),
    decreases l,
{
    if l.len() == 0 {
        assert(written_list(l) + rest =~= rest);
    } else if l.len() == 1 {
        lemma_pass_value(l[0], rest, depth, key);
    } else {
        let more = l.subrange(1, l.len() as int);
        assert forall|i: int| 0 <= i < more.len() implies writable(#[trigger] more[i]) by {
            assert(more[i] == l[i + 1]);
        }
        let tail = written_list(more) + rest;
        assert(written_list(l) + rest =~= written(l[0]) + (seq![','] + tail));
        lemma_pass_value(l[0], seq![','] + tail, depth, key);
        lemma_pass_char(',', tail, depth, key);
        lemma_pass_list(more, rest, depth, key);
    }
}

proof fn lemma_pass_fields(f: Seq<Field>, rest: Seq<char>, depth: nat, key: Seq<char>)
    requires
        forall|i: int| 0 <= i < f.len() ==> writable((#[trigger] f[i]).value),
        depth >= 2,
    ensures
        find_field(written_fields(f) + rest, depth, key) == find_field(rest, depth, key),
    decreases f,
{
    if f.len() == 0 {
        assert(written_fields(f) + rest =~= rest);
    } else {
        let tail = after_first(f, rest);
        let value = written(f[0].value);
        lemma_first_field(f, rest);
        lemma_pass_quotes(f[0].name, seq![':'] + (value + tail), depth, key);
        lemma_pass_char(':', value + tail, depth, key);
        lemma_pass_value(f[0].value, tail, depth, key);
        if f.len() > 1 {
            let more = f.subrange(1, f.len() as int);
            assert forall|i: int| 0 <= i < more.len() implies writable(
                (#[trigger] more[i]).value,
            ) by {
                assert(more[i] == f[i + 1]);
            }
            lemma_pass_char(',', written_fields(more) + rest, depth, key);
            lemma_pass_fields(more, rest, depth, key);
        }
    }
}

/// What follows the first field: the others, and `rest`.
pub open spec fn after_first(f: Seq<Field>, rest: Seq<char>) -> Seq<char> {
    if f.len() > 1 {
        seq![','] + (written_fields(f.subrange(1, f.len() as int)) + rest)
    } else {
        rest
    }
}

/// Fields are written one after the other.
pub proof fn lemma_first_field(f: Seq<Field>, rest: Seq<char>)
    requires
        f.len() > 0,
    ensures
        written_fields(f) + rest == in_quotes(f[0].name) + (seq![':'] + (written(f[0].value)
            + after_first(f, rest))),
{
    assert(written_fields(f) + rest =~= in_quotes(f[0].name) + (seq![':'] + (written(f[0].value)
        + after_first(f, rest))));
}

/// A value begins with no white space, and with a quote exactly if it is a text.
proof fn lemma_value_begins(v: Value)
    requires
        writable(v),
    ensures
        written(v).len() > 0,
        !words::is_space(written(v)[0]),
        written(v)[0] == '"' <==> v is Text,
{
    if let Value::Bare(w) = v {
        syntax::lemma_bare_len(w);
    }
}

/// The fields of the outermost object are read in order.
proof fn lemma_find_in_fields(f: Seq<Field>, key: Seq<char>)
    requires
        forall|i: int| 0 <= i < f.len() ==> writable((#[trigger] f[i]).value),
        escaped(key) == key,
        first_text(f, key) matches Some(t) ==> printable(t),
    ensures
        find_field(written_fields(f) + seq!['}'], 1, key) == first_text(f, key),
    decreases f.len(),
{
    let close = seq!['}'];
    if f.len() == 0 {
        assert(written_fields(f) + close =~= close + Seq::<char>::empty());
        lemma_pass_char('}', Seq::empty(), 1, key);
    } else {
        let name = f[0].name;
        let v = f[0].value;
        let value = written(v);
        let tail = after_first(f, close);
        let rest = seq![':'] + (value + tail);
        let s = in_quotes(name) + rest;
        lemma_first_field(f, close);
        lemma_value_begins(v);
        assert(words::trim_start(rest) == rest);
        assert(rest.skip(1) =~= value + tail);
        assert(words::trim_start(value + tail) == value + tail);
        assert(tail[0] == ',' || tail[0] == '}');
        assert(words::trim_start(tail) == tail);
        assert(after_colon(tail) is None);
        if name != key {
            law_escaped_text_decodes_back(name);
            law_escaped_text_decodes_back(key);
            assert(escaped(name) != key);
        }
        if name == key {
            let n = escaped(name).len() as int;
            lemma_raw_escaped(name, rest);
            if let Value::Text(t) = v {
                lemma_quoted_escaped(t, tail);
                assert((value + tail).skip(1) =~= escaped(t) + seq!['"'] + tail);
            }
            assert(s.skip(1) =~= escaped(name) + seq!['"'] + rest);
            assert(s[0] == '"');
            assert(s.skip(n + 2) =~= rest);
            assert(s.subrange(1, n + 1) =~= key);
        } else {
            lemma_pass_quotes(name, rest, 1, key);
            lemma_pass_char(':', value + tail, 1, key);
            lemma_pass_value(v, tail, 1, key);
            let more = f.subrange(1, f.len() as int);
            assert forall|i: int| 0 <= i < more.len() implies writable(
                (#[trigger] more[i]).value,
            ) by {
                assert(more[i] == f[i + 1]);
            }
            if f.len() > 1 {
                lemma_pass_char(',', written_fields(more) + close, 1, key);
                lemma_find_in_fields(more, key);
            } else {
                assert(close =~= close + Seq::<char>::empty());
                lemma_pass_char('}', Seq::empty(), 1, key);
                assert(first_text(more, key) is None);
            }
        }
    }
}

/// An escaped text is a JSON string.
proof fn lemma_string_escaped(t: Seq<char>, rest: Seq<char>)
    ensures
        syntax::string_len(escaped(t) + seq!['"'] + rest) == Some(escaped(t).len()),
    decreases t.len(),
{
    let s = escaped(t) + seq!['"'] + rest;
    if t.len() == 0 {
        assert(s[0] == '"');
    } else {
        let c = t[0];
        let e = escape_char(c);
        let u = escaped(t.skip(1)) + seq!['"'] + rest;
        lemma_string_escaped(t.skip(1), rest);
        assert(s =~= e + u);
        assert(s.skip(e.len() as int) =~= u);
        assert(s[0] == e[0]);
        if e.len() == 1 {
            assert(c != '"' && c != '\\' && (c as u32) >= 0x20);
        } else if e.len() == 2 {
            assert(s[1] == e[1]);
            assert(simple_escape(s[1]) is Some);
        } else {
            let d = s.subrange(2, 6);
            assert(s[1] == 'u');
            assert(simple_escape('u') is None);
            assert(d[0] == e[2] && d[1] == e[3] && d[2] == e[4] && d[3] == e[5]);
            syntax::lemma_four_digits(d);
            assert(text::digits_value(d, 16) is Some);
        }
        assert(syntax::string_len(s) == Some((syntax::string_len(u)->0 + e.len()) as nat));
    }
}

/// A string may stand where a value or a name is due.
proof fn lemma_quotes_complete(
    t: Seq<char>,
    rest: Seq<char>,
    open: Seq<bool>,
    place: syntax::Place,
)
    requires
        syntax::after_string(place) is Some,
    ensures
        syntax::completes(in_quotes(t) + rest, open, place) == syntax::completes(
            rest,
            open,
            syntax::after_string(place)->0,
        ),
{
    let s = in_quotes(t) + rest;
    let n = escaped(t).len() as int;
    assert(s.skip(1) =~= escaped(t) + seq!['"'] + rest);
    lemma_string_escaped(t, rest);
    assert(s[0] == '"');
    assert(s.skip(n + 2) =~= rest);
}

/// A brace, a bracket, a colon or a comma leads on.
proof fn lemma_mark_completes(
    c: char,
    rest: Seq<char>,
    open: Seq<bool>,
    place: syntax::Place,
)
    requires
        c == '{' || c == '}' || c == '[' || c == ']' || c == ':' || c == ',',
        syntax::after_mark(c, open, place) is Some,
    ensures
        ({
            let (o, next) = syntax::after_mark(c, open, place)->0;
            syntax::completes(seq![c] + rest, open, place) == syntax::completes(rest, o, next)
        }),
{
    assert((seq![c] + rest).skip(1) =~= rest);
}

/// A bare value ends where a delimiter follows.
proof fn lemma_bare_stops(w: Seq<char>, rest: Seq<char>)
    requires
        syntax::bare_len(w) == w.len(),
        rest.len() > 0 ==> syntax::is_delimiter(rest[0]),
    ensures
        syntax::bare_len(w + rest) == w.len(),
    decreases w.len(),
{
    if w.len() == 0 {
        assert(w + rest =~= rest);
    } else {
        lemma_bare_stops(w.skip(1), rest);
        assert((w + rest).skip(1) =~= w.skip(1) + rest);
    }
}

/// Whether `rest` can follow a value.
spec fn ends_value(rest: Seq<char>) -> bool {
    rest.len() > 0 ==> syntax::is_delimiter(rest[0])
}

/// A written value may stand where a value is due.
proof fn lemma_value_completes(
    v: Value,
    rest: Seq<char>,
    open: Seq<bool>,
    place: syntax::Place,
)
    requires
        writable(v),
        place is Value || place is First,
        ends_value(rest),
    ensures
        syntax::completes(written(v) + rest, open, place) == syntax::completes(
            rest,
            open,
            syntax::Place::After,
        ),
    decreases v,
{
    match v {
        Value::Text(t) => {
            lemma_quotes_complete(t, rest, open, place);
        },
        Value::Bare(w) => {
            lemma_bare_stops(w, rest);
            syntax::lemma_bare_len(w);
            assert((w + rest).take(w.len() as int) =~= w);
            assert((w + rest).skip(w.len() as int) =~= rest);
            assert((w + rest)[0] == w[0]);
        },
        Value::List(l) => {
            let tail = seq![']'] + rest;
            let inner = open.push(false);
            assert(written(v) + rest =~= seq!['['] + (written_list(l) + tail));
            assert(inner.drop_last() =~= open);
            lemma_mark_completes('[', written_list(l) + tail, open, place);
            lemma_list_completes(l, rest, open, syntax::Place::First);
        },
        Value::Object(f) => {
            let tail = seq!['}'] + rest;
            let inner = open.push(true);
            assert(written(v) + rest =~= seq!['{'] + (written_fields(f) + tail));
            assert(inner.drop_last() =~= open);
            lemma_mark_completes('{', written_fields(f) + tail, open, place);
            lemma_fields_complete(f, rest, open, syntax::Place::FirstName);
        },
    }
}

proof fn lemma_list_completes(
    l: Seq<Value>,
    rest: Seq<char>,
    open: Seq<bool>,
    place: syntax::Place,
)
    requires
        forall|i: int| 0 <= i < l.len() ==> writable(#[trigger] l[i]),
        place is First || (place is Value && l.len() > 0),
    ensures
        syntax::completes(written_list(l) + (seq![']'] + rest), open.push(false), place)
            == syntax::completes(rest, open, syntax::Place::After),
    decreases l,
{
    let close = seq![']'] + rest;
    let inner = open.push(false);
    assert(inner.drop_last() =~= open);
    if l.len() == 0 {
        assert(written_list(l) + close =~= close);
        lemma_mark_completes(']', rest, inner, place);
    } else if l.len() == 1 {
        lemma_value_completes(l[0], close, inner, place);
        lemma_mark_completes(']', rest, inner, syntax::Place::After);
    } else {
        let more = l.subrange(1, l.len() as int);
        assert forall|i: int| 0 <= i < more.len() implies writable(#[trigger] more[i]) by {
            assert(more[i] == l[i + 1]);
        }
        let tail = written_list(more) + close;
        assert(written_list(l) + close =~= written(l[0]) + (seq![','] + tail));
        lemma_value_completes(l[0], seq![','] + tail, inner, place);
        lemma_mark_completes(',', tail, inner, syntax::Place::After);
        lemma_list_completes(more, rest, open, syntax::Place::Value);
    }
}

proof fn lemma_fields_complete(
    f: Seq<Field>,
    rest: Seq<char>,
    open: Seq<bool>,
    place: syntax::Place,
)
    requires
        forall|i: int| 0 <= i < f.len() ==> writable((#[trigger] f[i]).value),
        place is FirstName || (place is Name && f.len() > 0),
    ensures
        syntax::completes(written_fields(f) + (seq!['}'] + rest), open.push(true), place)
            == syntax::completes(rest, open, syntax::Place::After),
    decreases f,
{
    let close = seq!['}'] + rest;
    let inner = open.push(true);
    assert(inner.drop_last() =~= open);
    if f.len() == 0 {
        assert(written_fields(f) + close =~= close);
        lemma_mark_completes('}', rest, inner, place);
    } else {
        let tail = after_first(f, close);
        let value = written(f[0].value);
        lemma_first_field(f, close);
        lemma_quotes_complete(f[0].name, seq![':'] + (value + tail), inner, place);
        lemma_mark_completes(':', value + tail, inner, syntax::Place::Colon);
        lemma_value_completes(f[0].value, tail, inner, syntax::Place::Value);
        if f.len() > 1 {
            let more = f.subrange(1, f.len() as int);
            assert forall|i: int| 0 <= i < more.len() implies writable(
                (#[trigger] more[i]).value,
            ) by {
                assert(more[i] == f[i + 1]);
            }
            lemma_mark_completes(
                ',',
                written_fields(more) + close,
                inner,
                syntax::Place::After,
            );
            lemma_fields_complete(more, rest, open, syntax::Place::Name);
        } else {
            lemma_mark_completes('}', rest, inner, syntax::Place::After);
        }
    }
}

/// A written value is a JSON text.
pub proof fn law_written_values_are_json(v: Value)
    requires
        writable(v),
    ensures
        syntax::is_json(written(v)),
{
    let none = Seq::<char>::empty();
    assert(written(v) + none =~= written(v));
    lemma_value_completes(v, none, Seq::empty(), syntax::Place::Value);
}

/// A written object is read back: the reader gives the text of the first field of that name, if
/// that holds a text, whatever texts, numbers, lists and objects the other fields hold. The name
/// must need no escape, and of the control characters the text holds only those that the reader
/// knows.
pub proof fn law_written_field_is_read_back(f: Seq<Field>, key: Seq<char>)
    requires
        writable(Value::Object(f)),
        escaped(key) == key,
        first_text(f, key) matches Some(t) ==> printable(t),
    ensures
        top_field(written(Value::Object(f)), key) == first_text(f, key),
{
    let s = written(Value::Object(f));
    law_written_values_are_json(Value::Object(f));
    assert(s =~= seq!['{'] + (written_fields(f) + seq!['}']));
    lemma_pass_char('{', written_fields(f) + seq!['}'], 0, key);
    lemma_find_in_fields(f, key);
}

/// What the earlier fields hold does not matter to a field of another name: it is read back as
/// it was written.
pub proof fn law_earlier_fields_do_not_matter(
    earlier: Seq<Field>,
    key: Seq<char>,
    t: Seq<char>,
    later: Seq<Field>,
)
    requires
        writable(Value::Object(earlier)),
        writable(Value::Object(later)),
        forall|i: int| 0 <= i < earlier.len() ==> (#[trigger] earlier[i]).name != key,
        escaped(key) == key,
        printable(t),
    ensures
        top_field(
            written(
                Value::Object(
                    earlier + seq![Field { name: key, value: Value::Text(t) }] + later,
                ),
            ),
            key,
        ) == Some(t),
{
    let here = Field { name: key, value: Value::Text(t) };
    let f = earlier + seq![here] + later;
    assert forall|i: int| 0 <= i < f.len() implies writable((#[trigger] f[i]).value) by {
        if i < earlier.len() {
            assert(f[i] == earlier[i]);
        } else if i > earlier.len() {
            assert(f[i] == later[i - earlier.len() - 1]);
        }
    }
    lemma_first_text(earlier, here, later);
    law_written_field_is_read_back(f, key);
}

proof fn lemma_first_text(earlier: Seq<Field>, here: Field, later: Seq<Field>)
    requires
        forall|i: int| 0 <= i < earlier.len() ==> (#[trigger] earlier[i]).name != here.name,
        here.value is Text,
    ensures
        first_text(earlier + seq![here] + later, here.name) == Some(here.value->Text_0),
    decreases earlier.len(),
{
    let f = earlier + seq![here] + later;
    if earlier.len() > 0 {
        let more = earlier.skip(1);
        assert forall|i: int| 0 <= i < more.len() implies (#[trigger] more[i]).name
            != here.name by {
            assert(more[i] == earlier[i + 1]);
        }
        lemma_first_text(more, here, later);
        assert(f[0] == earlier[0]);
        assert(f.subrange(1, f.len() as int) =~= more + seq![here] + later);
    } else {
        assert(f[0] == here);
    }
}

/// Text that needs no escape stands as it is.
pub proof fn law_plain_text_stands_as_it_is(s: Seq<char>)
    requires
        forall|i: int|
            0 <= i < s.len() ==> (#[trigger] s[i] as u32) >= 0x20 && s[i] != '"' && s[i] != '\\',
    ensures
        escaped(s) == s,
    decreases s.len(),
{
    if s.len() > 0 {
        let rest = s.skip(1);
        assert forall|i: int| 0 <= i < rest.len() implies (#[trigger] rest[i] as u32) >= 0x20
            && rest[i] != '"' && rest[i] != '\\' by {
            assert(rest[i] == s[i + 1]);
        }
        law_plain_text_stands_as_it_is(rest);
        assert(s[0] as u32 >= 0x20);
        assert(seq![s[0]] + rest =~= s);
    }
    assert(escaped(s) =~= s);
}

/// The short escapes are those of JSON, and other control characters are written with four
/// hexadecimal digits.
pub proof fn law_escapes_of_json(c: char)
    ensures
        escape_char('"') == seq!['\\', '"'],
        escape_char('\\') == seq!['\\', '\\'],
        escape_char('\n') == seq!['\\', 'n'],
        escape_char('\r') == seq!['\\', 'r'],
        escape_char('\t') == seq!['\\', 't'],
        (c as u32) < 0x20 && c != '\n' && c != '\r' && c != '\t' ==> escape_char(c).take(2)
            == seq!['\\', 'u'] && escape_char(c).len() == 6 && text::digits_value(
            escape_char(c).skip(2),
            16,
        ) == Some(c as nat),
{
    if (c as u32) < 0x20 && c != '\n' && c != '\r' && c != '\t' {
        let e = escape_char(c);
        let d = e.skip(2);
        assert(e.take(2) =~= seq!['\\', 'u']);
        assert(d =~= seq![e[2], e[3], e[4], e[5]]);
        reveal_with_fuel(text::digits_value, 5);
        assert(d.drop_last() =~= seq![e[2], e[3], e[4]]);
        assert(seq![e[2], e[3], e[4]].drop_last() =~= seq![e[2], e[3]]);
        assert(seq![e[2], e[3]].drop_last() =~= seq![e[2]]);
        assert(seq![e[2]].drop_last() =~= Seq::<char>::empty());
    }
}

/// A quoted text is read up to its closing quote, character by character: those without a
/// backslash stand for themselves, `n`, `t` and `r` after one stand for line feed, tab and
/// carriage return, and any other character after one stands for itself.
pub proof fn law_quoted_text_is_read_character_by_character(c: char, rest: Seq<char>)
    ensures
        quoted(seq!['"'] + rest) == Some(Seq::<char>::empty()),
        quoted(Seq::empty()) is None,
        c != '"' && c != '\\' ==> quoted(seq![c] + rest) == match quoted(rest) {
            Some(t) => Some(seq![c] + t),
            None => None,
        },
        quoted(seq!['\\', c] + rest) == match quoted(rest) {
            Some(t) => Some(
                seq![
                    if c == 'n' {
                        '\n'
                    } else if c == 't' {
                        '\t'
                    } else if c == 'r' {
                        '\r'
                    } else {
                        c
                    },
                ] + t,
            ),
            None => None,
        },
{
    assert((seq![c] + rest).skip(1) =~= rest);
    assert((seq!['\\', c] + rest).skip(2) =~= rest);
}

/// In a text that is no JSON the first quoted key counts: white space may stand on either side of
/// the colon, and a quoted text must follow.
pub proof fn law_loose_field_follows_its_key(
    front: Seq<char>,
    key: Seq<char>,
    before: Seq<char>,
    after: Seq<char>,
    rest: Seq<char>,
)
    requires
        words::all_space(before),
        words::all_space(after),
        words::first_at(
            front + seq!['"'] + key + seq!['"'] + before + seq![':'] + after + seq!['"'] + rest,
            seq!['"'] + key + seq!['"'],
        ) == Some(front.len()),
    ensures
        loose_field(
            front + seq!['"'] + key + seq!['"'] + before + seq![':'] + after + seq!['"'] + rest,
            key,
        ) == quoted(rest),
{
    let s = front + seq!['"'] + key + seq!['"'] + before + seq![':'] + after + seq!['"'] + rest;
    let pat = seq!['"'] + key + seq!['"'];
    let value = seq!['"'] + rest;
    let t = s.skip((front.len() + pat.len()) as int);
    assert(t =~= before + (seq![':'] + (after + value)));
    words::lemma_trim_front(before, seq![':'] + (after + value));
    assert((seq![':'] + (after + value)).skip(1) =~= after + value);
    words::lemma_trim_front(after, value);
    assert(value.skip(1) =~= rest);
}

/// In a text that is no JSON a field is missing where its quoted key does not occur.
pub proof fn law_loose_field_needs_its_key(s: Seq<char>, key: Seq<char>)
    requires
        forall|k: int|
            0 <= k && k + key.len() + 2 <= s.len() ==> #[trigger] s.subrange(
                k,
                k + key.len() + 2,
            ) != seq!['"'] + key + seq!['"'],
    ensures
        loose_field(s, key) is None,
{
    let pat = seq!['"'] + key + seq!['"'];
    assert forall|k: int| 0 <= k <= s.len() - pat.len() implies #[trigger] s.subrange(
        k,
        k + pat.len(),
    ) != pat by {
        assert(s.subrange(k, k + pat.len()) == s.subrange(k, k + key.len() + 2));
    }
    words::lemma_not_at(s, pat);
}

} // verus!
