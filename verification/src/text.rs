//! Text primitives: comparison, trimming, splitting into lines, decimal numbers.
//!
//! Contracts speak of the characters of a string, `s@`.

use vstd::prelude::*;
use vstd::string::*;
use vstd::utf8::*;

verus! {

/// `String::push` appends one character at the end.
pub assume_specification[ String::push ](s: &mut String, ch: char)
    ensures
        final(s)@ == old(s)@.push(ch),
;

/// The characters of each string of a sequence.
pub open spec fn views(v: Seq<String>) -> Seq<Seq<char>> {
    Seq::new(v.len(), |i: int| v[i]@)
}

/// The characters of an optional string.
pub open spec fn opt_view(o: Option<String>) -> Option<Seq<char>> {
    match o {
        Some(s) => Some(s@),
        None => None,
    }
}

/// The number of bytes that the characters take in UTF-8.
pub open spec fn byte_len(s: Seq<char>) -> nat {
    encode_utf8(s).len()
}

/// Two texts with the same bytes have the same characters.
pub proof fn lemma_utf8_injective(a: Seq<char>, b: Seq<char>)
    requires
        encode_utf8(a) == encode_utf8(b),
    ensures
        a == b,
{
    encode_utf8_decode_utf8(a);
    encode_utf8_decode_utf8(b);
}

/// Whether two byte strings are equal.
pub fn bytes_eq(a: &[u8], b: &[u8]) -> (r: bool)
    ensures
        r == (a@ == b@),
{
    if a.len() != b.len() {
        return false;
    }
    let mut i: usize = 0;
    while i < a.len()
        invariant
            i <= a.len(),
            a.len() == b.len(),
            forall|k: int| 0 <= k < i ==> a@[k] == b@[k],
        decreases a.len() - i,
    {
        if a[i] != b[i] {
            assert(a@[i as int] != b@[i as int]);
            return false;
        }
        i = i + 1;
    }
    assert(a@ =~= b@);
    true
}

/// Whether two strings are equal.
pub fn str_eq(a: &str, b: &str) -> (r: bool)
    ensures
        r == (a@ == b@),
{
    let r = bytes_eq(a.as_bytes(), b.as_bytes());
    proof {
        if r {
            lemma_utf8_injective(a@, b@);
        }
    }
    r
}

/// The characters of a string, as a vector.
pub fn chars_of(s: &str) -> (v: Vec<char>)
    ensures
        v@ == s@,
{
    let mut v: Vec<char> = Vec::new();
    for c in it: s.chars()
        invariant
            v@ == it.seq().take(it.index() as int),
            it.seq() == s@,
    {
        assert(it.seq().take(it.index() as int).push(c) =~= it.seq().take(it.index() + 1));
        v.push(c);
    }
    assert(s@.take(s@.len() as int) =~= s@);
    v
}

/// The string of the characters `from..to` of a vector.
pub fn string_of(v: &Vec<char>, from: usize, to: usize) -> (s: String)
    requires
        from <= to <= v.len(),
    ensures
        s@ == v@.subrange(from as int, to as int),
{
    let mut s = String::new();
    let mut i: usize = from;
    while i < to
        invariant
            from <= i <= to <= v.len(),
            s@ == v@.subrange(from as int, i as int),
        decreases to - i,
    {
        s.push(v[i]);
        assert(v@.subrange(from as int, i as int).push(v@[i as int]) =~= v@.subrange(
            from as int,
            i + 1,
        ));
        i = i + 1;
    }
    s
}

/// A text between two others.
pub fn around(before: &str, value: &str, after: &str) -> (s: String)
    ensures
        s@ == before@ + value@ + after@,
{
    let mut s = before.to_owned();
    s.append(value);
    s.append(after);
    s
}

/// The length of the longest prefix without a character at which to stop.
pub open spec fn span(s: Seq<char>, stop: spec_fn(char) -> bool) -> nat
    decreases s.len(),
{
    if s.len() == 0 || stop(s[0]) {
        0
    } else {
        1 + span(s.drop_first(), stop)
    }
}

/// A span ends at the first character at which to stop.
pub proof fn lemma_span(s: Seq<char>, stop: spec_fn(char) -> bool, i: int)
    requires
        0 <= i <= s.len(),
        forall|k: int| 0 <= k < i ==> !stop(#[trigger] s[k]),
        i < s.len() ==> stop(s[i]),
    ensures
        span(s, stop) == i,
    decreases s.len(),
{
    if i > 0 {
        assert(forall|k: int| 0 <= k < i - 1 ==> s.drop_first()[k] == s[k + 1]);
        assert(!stop(s[0]));
        lemma_span(s.drop_first(), stop, i - 1);
    }
}

/// The characters that Unicode lists as white space.
pub open spec fn is_white_space(c: char) -> bool {
    ||| '\u{9}' <= c <= '\u{d}'
    ||| c == ' '
    ||| c == '\u{85}'
    ||| c == '\u{a0}'
    ||| c == '\u{1680}'
    ||| '\u{2000}' <= c <= '\u{200a}'
    ||| c == '\u{2028}'
    ||| c == '\u{2029}'
    ||| c == '\u{202f}'
    ||| c == '\u{205f}'
    ||| c == '\u{3000}'
}

/// Whether a character is white space.
pub fn white_space(c: char) -> (r: bool)
    ensures
        r == is_white_space(c),
{
    ('\u{9}' <= c && c <= '\u{d}') || c == ' ' || c == '\u{85}' || c == '\u{a0}' || c == '\u{1680}'
        || ('\u{2000}' <= c && c <= '\u{200a}') || c == '\u{2028}' || c == '\u{2029}' || c
        == '\u{202f}' || c == '\u{205f}' || c == '\u{3000}'
}

/// The number of leading white-space characters.
pub open spec fn leading_space(s: Seq<char>) -> nat {
    span(s, |c: char| !is_white_space(c))
}

/// The text without its leading white space.
pub open spec fn trim_start(s: Seq<char>) -> Seq<char> {
    s.skip(leading_space(s) as int)
}

/// The text without its trailing white space.
pub open spec fn trim_end(s: Seq<char>) -> Seq<char>
    decreases s.len(),
{
    if s.len() > 0 && is_white_space(s.last()) {
        trim_end(s.drop_last())
    } else {
        s
    }
}

/// The text without white space at either end.
pub open spec fn trimmed(s: Seq<char>) -> Seq<char> {
    trim_end(trim_start(s))
}

/// The bytes of leading white space.
pub open spec fn indentation(s: Seq<char>) -> int {
    byte_len(s) - byte_len(trim_start(s))
}

/// The index of the first character at or after `from` that is not white space.
pub fn skip_space(v: &Vec<char>, from: usize) -> (i: usize)
    requires
        from <= v.len(),
    ensures
        from <= i <= v.len(),
        i == from + leading_space(v@.skip(from as int)),
{
    let mut i: usize = from;
    while i < v.len() && white_space(v[i])
        invariant
            from <= i <= v.len(),
            forall|k: int| from <= k < i ==> is_white_space(#[trigger] v@[k]),
        decreases v.len() - i,
    {
        i = i + 1;
    }
    proof {
        let s = v@.skip(from as int);
        assert forall|k: int| 0 <= k < i - from implies is_white_space(#[trigger] s[k]) by {
            assert(s[k] == v@[k + from]);
        }
        lemma_span(s, |c: char| !is_white_space(c), i - from);
    }
    i
}

/// The index of the first white-space character at or after `from`.
pub fn skip_word(v: &Vec<char>, from: usize) -> (i: usize)
    requires
        from <= v.len(),
    ensures
        from <= i <= v.len(),
        i == from + span(v@.skip(from as int), |c: char| is_white_space(c)),
{
    let mut i: usize = from;
    while i < v.len() && !white_space(v[i])
        invariant
            from <= i <= v.len(),
            forall|k: int| from <= k < i ==> !is_white_space(#[trigger] v@[k]),
        decreases v.len() - i,
    {
        i = i + 1;
    }
    proof {
        let s = v@.skip(from as int);
        assert forall|k: int| 0 <= k < i - from implies !is_white_space(#[trigger] s[k]) by {
            assert(s[k] == v@[k + from]);
        }
        lemma_span(s, |c: char| is_white_space(c), i - from);
    }
    i
}

/// The text without white space at either end.
pub fn trim(s: &str) -> (r: String)
    ensures
        r@ == trimmed(s@),
{
    let v = chars_of(s);
    let start: usize = skip_space(&v, 0);
    assert(v@.skip(0) =~= v@);
    let mut end: usize = v.len();
    while end > start && white_space(v[end - 1])
        invariant
            start <= end <= v.len(),
            v@ == s@,
            trim_end(v@.subrange(start as int, end as int)) == trimmed(s@),
        decreases end,
    {
        assert(v@.subrange(start as int, end as int).drop_last() =~= v@.subrange(
            start as int,
            end - 1,
        ));
        end = end - 1;
    }
    string_of(&v, start, end)
}

/// The bytes of leading white space.
pub fn indent(s: &str) -> (n: usize)
    ensures
        n == indentation(s@),
{
    let v = chars_of(s);
    let start: usize = skip_space(&v, 0);
    assert(v@.skip(0) =~= v@);
    let rest = s.substring_char(start, v.len());
    assert(rest@ =~= trim_start(s@));
    proof {
        lemma_byte_len_split(s@, start as int);
    }
    s.as_bytes().len() - rest.as_bytes().len()
}

/// The bytes of a text are those of its two parts, one after the other.
pub proof fn lemma_byte_len_split(s: Seq<char>, i: int)
    requires
        0 <= i <= s.len(),
    ensures
        encode_utf8(s) == encode_utf8(s.take(i)) + encode_utf8(s.skip(i)),
        byte_len(s) == byte_len(s.take(i)) + byte_len(s.skip(i)),
    decreases i,
{
    if i == 0 {
        assert(s.take(0) =~= Seq::<char>::empty());
        assert(s.skip(0) =~= s);
        assert(encode_utf8(s) =~= encode_utf8(s.take(0)) + encode_utf8(s.skip(0)));
    } else {
        lemma_byte_len_split(s.drop_first(), i - 1);
        assert(s.drop_first().take(i - 1) =~= s.take(i).drop_first());
        assert(s.drop_first().skip(i - 1) =~= s.skip(i));
        assert(encode_utf8(s) =~= encode_utf8(s.take(i)) + encode_utf8(s.skip(i)));
    }
}

/// A terminated line without the carriage return before its line feed.
pub open spec fn strip_carriage_return(s: Seq<char>) -> Seq<char> {
    if s.len() > 0 && s.last() == '\r' {
        s.drop_last()
    } else {
        s
    }
}

/// The number of characters before the first line feed.
pub open spec fn line_len(s: Seq<char>) -> nat {
    span(s, |c: char| c == '\n')
}

/// The lines of a text. A line ends at a line feed, with the carriage return
/// before it, if any; the last line need not be terminated.
pub open spec fn lines_of(s: Seq<char>) -> Seq<Seq<char>>
    decreases s.len(),
{
    let n = line_len(s) as int;
    if s.len() == 0 {
        Seq::empty()
    } else if n >= s.len() {
        seq![s]
    } else {
        seq![strip_carriage_return(s.take(n))] + lines_of(s.skip(n + 1))
    }
}

/// The lines of a text.
pub fn lines(s: &str) -> (r: Vec<String>)
    ensures
        views(r@) == lines_of(s@),
{
    let v = chars_of(s);
    let mut r: Vec<String> = Vec::new();
    let mut pos: usize = 0;
    assert(v@.skip(0) =~= v@);
    assert(views(r@) + lines_of(v@) =~= lines_of(v@));
    while pos < v.len()
        invariant
            pos <= v.len(),
            views(r@) + lines_of(v@.skip(pos as int)) == lines_of(v@),
        decreases v.len() - pos,
    {
        let mut end: usize = pos;
        while end < v.len() && v[end] != '\n'
            invariant
                pos <= end <= v.len(),
                forall|k: int| pos <= k < end ==> #[trigger] v@[k] != '\n',
            decreases v.len() - end,
        {
            end = end + 1;
        }
        let ghost rest = v@.skip(pos as int);
        let ghost done = r@;
        proof {
            assert forall|k: int| 0 <= k < end - pos implies #[trigger] rest[k] != '\n' by {
                assert(rest[k] == v@[k + pos]);
            }
            lemma_span(rest, |c: char| c == '\n', end - pos);
        }
        if end == v.len() {
            let line = string_of(&v, pos, end);
            assert(line@ =~= rest);
            r.push(line);
            assert(views(r@) =~= views(done).push(rest));
            pos = end;
            assert(v@.skip(pos as int) =~= Seq::<char>::empty());
            assert(views(r@) + lines_of(v@.skip(pos as int)) =~= views(done) + lines_of(rest));
        } else {
            let stop: usize = if end > pos && v[end - 1] == '\r' {
                end - 1
            } else {
                end
            };
            let line = string_of(&v, pos, stop);
            assert(line@ =~= strip_carriage_return(rest.take(end - pos)));
            r.push(line);
            assert(views(r@) =~= views(done).push(strip_carriage_return(rest.take(end - pos))));
            pos = end + 1;
            assert(v@.skip(pos as int) =~= rest.skip(line_len(rest) as int + 1));
            assert(views(r@) + lines_of(v@.skip(pos as int)) =~= views(done) + lines_of(rest));
        }
    }
    assert(v@.skip(pos as int) =~= Seq::<char>::empty());
    assert(views(r@) + lines_of(v@.skip(pos as int)) =~= views(r@));
    r
}

/// The part of a text after a prefix, if it starts with that prefix.
pub open spec fn after_prefix(s: Seq<char>, prefix: Seq<char>) -> Option<Seq<char>> {
    if prefix.is_prefix_of(s) {
        Some(s.skip(prefix.len() as int))
    } else {
        None
    }
}

/// Whether a text starts with a prefix.
pub fn starts_with(s: &str, prefix: &str) -> (r: bool)
    ensures
        r == prefix@.is_prefix_of(s@),
{
    let n: usize = prefix.unicode_len();
    if s.unicode_len() < n {
        return false;
    }
    let head = s.substring_char(0, n);
    str_eq(head, prefix)
}

/// The part of a text after a prefix, if it starts with that prefix.
pub fn strip_prefix<'a>(s: &'a str, prefix: &str) -> (r: Option<&'a str>)
    ensures
        match r {
            Some(rest) => after_prefix(s@, prefix@) == Some(rest@),
            None => after_prefix(s@, prefix@) is None,
        },
{
    if starts_with(s, prefix) {
        Some(s.substring_char(prefix.unicode_len(), s.unicode_len()))
    } else {
        None
    }
}

/// Whether a text contains another at position `i`.
pub open spec fn occurs_at(s: Seq<char>, pattern: Seq<char>, i: int) -> bool {
    0 <= i <= s.len() - pattern.len() && s.subrange(i, i + pattern.len()) == pattern
}

/// Whether a text contains another.
pub open spec fn has_substring(s: Seq<char>, pattern: Seq<char>) -> bool {
    exists|i: int| occurs_at(s, pattern, i)
}

/// Whether a text contains another.
pub fn contains(s: &str, pattern: &str) -> (r: bool)
    ensures
        r == has_substring(s@, pattern@),
{
    let n: usize = s.unicode_len();
    let m: usize = pattern.unicode_len();
    if n < m {
        return false;
    }
    let mut i: usize = 0;
    while i <= n - m
        invariant
            n == s@.len(),
            m == pattern@.len(),
            m <= n,
            i <= n - m + 1,
            forall|k: int| 0 <= k < i ==> !occurs_at(s@, pattern@, k),
        decreases n - m + 1 - i,
    {
        if str_eq(s.substring_char(i, i + m), pattern) {
            assert(occurs_at(s@, pattern@, i as int));
            return true;
        }
        if i == n - m {
            return false;
        }
        i = i + 1;
    }
    false
}

/// The value of a decimal digit.
pub open spec fn digit_value(c: char) -> nat {
    (c as int - '0' as int) as nat
}

/// The number that decimal digits stand for.
pub open spec fn digits_value(s: Seq<char>) -> nat
    decreases s.len(),
{
    if s.len() == 0 {
        0
    } else {
        digits_value(s.drop_last()) * 10 + digit_value(s.last())
    }
}

/// Whether every character is a decimal digit.
pub open spec fn all_digits(s: Seq<char>) -> bool {
    forall|i: int| 0 <= i < s.len() ==> '0' <= #[trigger] s[i] <= '9'
}

/// An unsigned number up to `max`: decimal digits, at least one, with an optional
/// plus sign before them.
pub open spec fn parsed_number(s: Seq<char>, max: nat) -> Option<nat> {
    let d = if s.len() > 0 && s[0] == '+' {
        s.drop_first()
    } else {
        s
    };
    if d.len() > 0 && all_digits(d) && digits_value(d) <= max {
        Some(digits_value(d))
    } else {
        None
    }
}

proof fn lemma_digits_value_grows(s: Seq<char>, i: int)
    requires
        0 <= i <= s.len(),
    ensures
        digits_value(s.take(i)) <= digits_value(s),
    decreases s.len() - i,
{
    if i < s.len() {
        assert(s.take(i + 1).drop_last() =~= s.take(i));
        lemma_digits_value_grows(s, i + 1);
    } else {
        assert(s.take(i) =~= s);
    }
}

/// An unsigned number up to `max`.
pub fn parse_number(s: &str, max: u64) -> (r: Option<u64>)
    ensures
        match r {
            Some(n) => parsed_number(s@, max as nat) == Some(n as nat),
            None => parsed_number(s@, max as nat) is None,
        },
{
    let v = chars_of(s);
    let start: usize = if v.len() > 0 && v[0] == '+' {
        1
    } else {
        0
    };
    if start == v.len() {
        return None;
    }
    let ghost d = v@.skip(start as int);
    assert(d =~= if s@.len() > 0 && s@[0] == '+' {
        s@.drop_first()
    } else {
        s@
    });
    let mut n: u64 = 0;
    let mut i: usize = start;
    assert(d.take(0) =~= Seq::<char>::empty());
    while i < v.len()
        invariant
            start <= i <= v.len(),
            d == v@.skip(start as int),
            start < v.len(),
            d == (if s@.len() > 0 && s@[0] == '+' {
                s@.drop_first()
            } else {
                s@
            }),
            n <= max,
            n == digits_value(d.take(i - start)),
            all_digits(d.take(i - start)),
        decreases v.len() - i,
    {
        let c = v[i];
        assert(d[i - start] == c);
        if c < '0' || c > '9' {
            return None;
        }
        let digit: u64 = c as u64 - '0' as u64;
        let ghost head = d.take(i - start + 1);
        assert(head.drop_last() =~= d.take(i - start));
        assert(digits_value(head) == n * 10 + digit);
        proof {
            lemma_digits_value_grows(d, i - start + 1);
        }
        if digit > max || n > (max - digit) / 10 {
            return None;
        }
        n = n * 10 + digit;
        i = i + 1;
        assert(all_digits(head)) by {
            assert forall|k: int| 0 <= k < head.len() implies '0' <= #[trigger] head[k] <= '9' by {
                if k < head.len() - 1 {
                    assert(head[k] == d.take(head.len() - 1)[k]);
                }
            }
        }
    }
    assert(d.take(v.len() - start) =~= d);
    Some(n)
}

/// The decimal digits of a number.
pub open spec fn decimal(n: nat) -> Seq<char>
    decreases n,
{
    if n < 10 {
        seq![('0' as int + n) as char]
    } else {
        decimal(n / 10).push(('0' as int + n % 10) as char)
    }
}

/// The decimal digits of a number.
pub fn number(n: u64) -> (s: String)
    ensures
        s@ == decimal(n as nat),
    decreases n,
{
    if n < 10 {
        let mut s = String::new();
        s.push(digit(n as u8));
        s
    } else {
        let mut s = number(n / 10);
        s.push(digit((n % 10) as u8));
        s
    }
}

/// A decimal digit.
fn digit(n: u8) -> (c: char)
    requires
        n < 10,
    ensures
        c == ('0' as int + n) as char,
{
    (48 + n) as char
}

// -- Lines and white space --------------------------------------------------

/// A span holds no character at which to stop, and ends at one or at the end.
pub proof fn lemma_span_ends(s: Seq<char>, stop: spec_fn(char) -> bool)
    ensures
        span(s, stop) <= s.len(),
        forall|k: int| 0 <= k < span(s, stop) ==> !stop(#[trigger] s[k]),
        span(s, stop) < s.len() ==> stop(s[span(s, stop) as int]),
    decreases s.len(),
{
    if s.len() > 0 && !stop(s[0]) {
        let rest = s.drop_first();
        lemma_span_ends(rest, stop);
        assert forall|k: int| 0 <= k < span(s, stop) implies !stop(#[trigger] s[k]) by {
            if k > 0 {
                assert(rest[k - 1] == s[k]);
            }
        }
        if span(s, stop) < s.len() {
            assert(rest[span(rest, stop) as int] == s[span(s, stop) as int]);
        }
    }
}

/// Whether a text is empty or ends with a line feed.
pub open spec fn is_terminated(s: Seq<char>) -> bool {
    s.len() == 0 || s.last() == '\n'
}

/// The lines of two texts one after the other, the first of which ends with a line feed.
pub proof fn lemma_lines_of_both(a: Seq<char>, b: Seq<char>)
    requires
        is_terminated(a),
    ensures
        lines_of(a + b) == lines_of(a) + lines_of(b),
    decreases a.len(),
{
    if a.len() == 0 {
        assert(a + b =~= b);
        assert(lines_of(a) + lines_of(b) =~= lines_of(b));
    } else {
        let stop = |c: char| c == '\n';
        let n = line_len(a) as int;
        lemma_span_ends(a, stop);
        assert(stop(a[a.len() - 1]));
        assert(n < a.len());
        let s = a + b;
        assert forall|k: int| 0 <= k < n implies !stop(#[trigger] s[k]) by {
            assert(s[k] == a[k]);
        }
        lemma_span(s, stop, n);
        assert(s.take(n) =~= a.take(n));
        let rest = a.skip(n + 1);
        assert(s.skip(n + 1) =~= rest + b);
        if rest.len() > 0 {
            assert(rest.last() == a.last());
        }
        lemma_lines_of_both(rest, b);
        assert(lines_of(s) =~= lines_of(a) + lines_of(b));
    }
}

/// The line of a text without a line feed.
pub proof fn lemma_one_line(line: Seq<char>)
    requires
        !line.contains('\n'),
    ensures
        lines_of(line) == (if line.len() == 0 {
            Seq::empty()
        } else {
            seq![line]
        }),
        lines_of(line.push('\n')) == seq![strip_carriage_return(line)],
{
    let stop = |c: char| c == '\n';
    assert forall|k: int| 0 <= k < line.len() implies !stop(#[trigger] line[k]) by {
        assert(line.contains(line[k]));
    }
    lemma_span(line, stop, line.len() as int);
    let s = line.push('\n');
    assert forall|k: int| 0 <= k < line.len() implies !stop(#[trigger] s[k]) by {
        assert(s[k] == line[k]);
    }
    lemma_span(s, stop, line.len() as int);
    assert(s.take(line.len() as int) =~= line);
    assert(s.skip(line.len() as int + 1) =~= Seq::<char>::empty());
    assert(lines_of(Seq::<char>::empty()) =~= Seq::<Seq<char>>::empty());
    assert(lines_of(s) =~= seq![strip_carriage_return(line)]);
}

/// A line feed at the end terminates the last line, and changes no other.
pub proof fn lemma_terminating_the_last_line(s: Seq<char>)
    requires
        !is_terminated(s),
    ensures
        lines_of(s).len() > 0,
        lines_of(s.push('\n')) == lines_of(s).drop_last().push(
            strip_carriage_return(lines_of(s).last()),
        ),
    decreases s.len(),
{
    let stop = |c: char| c == '\n';
    let n = line_len(s) as int;
    lemma_span_ends(s, stop);
    if n >= s.len() {
        assert(!s.contains('\n')) by {
            if s.contains('\n') {
                let k = s.index_of('\n');
                assert(!stop(s[k]));
            }
        }
        lemma_one_line(s);
        assert(lines_of(s).drop_last().push(strip_carriage_return(s)) =~= seq![
            strip_carriage_return(s),
        ]);
    } else {
        let first = s.take(n + 1);
        let rest = s.skip(n + 1);
        assert(s =~= first + rest);
        assert(s.push('\n') =~= first + rest.push('\n'));
        assert(first.last() == s[n]);
        lemma_lines_of_both(first, rest);
        lemma_lines_of_both(first, rest.push('\n'));
        assert(rest.len() > 0) by {
            if rest.len() == 0 {
                assert(s.last() == s[n]);
            }
        }
        assert(rest.last() == s.last());
        lemma_terminating_the_last_line(rest);
        let head = lines_of(first);
        let tail = lines_of(rest);
        assert((head + tail).last() == tail.last());
        assert((head + tail).drop_last().push(strip_carriage_return(tail.last())) =~= head
            + tail.drop_last().push(strip_carriage_return(tail.last())));
    }
}

/// Taking white space off the end of a text takes nothing else off it.
pub proof fn lemma_trim_end(s: Seq<char>)
    ensures
        trim_end(s).len() <= s.len(),
        trim_end(s) == s.take(trim_end(s).len() as int),
        forall|k: int| trim_end(s).len() <= k < s.len() ==> is_white_space(#[trigger] s[k]),
    decreases s.len(),
{
    if s.len() > 0 && is_white_space(s.last()) {
        let head = s.drop_last();
        lemma_trim_end(head);
        assert(head.take(trim_end(head).len() as int) =~= s.take(trim_end(s).len() as int));
        assert forall|k: int| trim_end(s).len() <= k < s.len() implies is_white_space(
            #[trigger] s[k],
        ) by {
            if k < head.len() {
                assert(head[k] == s[k]);
            }
        }
    } else {
        assert(s.take(s.len() as int) =~= s);
    }
}

/// A text that does not start with white space is not indented.
pub proof fn lemma_no_leading_space(s: Seq<char>)
    requires
        s.len() == 0 || !is_white_space(s[0]),
    ensures
        trim_start(s) == s,
{
    lemma_span(s, |c: char| !is_white_space(c), 0);
    assert(s.skip(0) =~= s);
}

/// A text that starts with white space is indented.
pub proof fn lemma_leading_space(s: Seq<char>)
    requires
        s.len() > 0,
        is_white_space(s[0]),
    ensures
        indentation(s) > 0,
{
    let n = leading_space(s) as int;
    lemma_span_ends(s, |c: char| !is_white_space(c));
    assert(n > 0);
    lemma_byte_len_split(s, n);
    assert(s.take(n).len() > 0);
}

/// A carriage return at the end of a line counts neither for what is left of it
/// without white space at either end, nor, if anything is, for whether it is indented.
pub proof fn lemma_carriage_return(line: Seq<char>)
    ensures
        trimmed(strip_carriage_return(line)) == trimmed(line),
        trimmed(line).len() > 0 ==> indentation(strip_carriage_return(line)) == indentation(line),
{
    if line.len() > 0 && line.last() == '\r' {
        let stop = |c: char| !is_white_space(c);
        let head = line.drop_last();
        let n = leading_space(line) as int;
        lemma_span_ends(line, stop);
        assert forall|k: int| 0 <= k < n && k < head.len() implies !stop(#[trigger] head[k]) by {
            assert(head[k] == line[k]);
        }
        if n == line.len() {
            lemma_span(head, stop, head.len() as int);
            assert(trim_start(head) =~= Seq::<char>::empty());
            assert(trim_start(line) =~= Seq::<char>::empty());
        } else {
            assert(n < head.len()) by {
                if n == head.len() {
                    assert(line[n] == '\r');
                }
            }
            assert(head[n] == line[n]);
            lemma_span(head, stop, n);
            assert(trim_start(head) =~= trim_start(line).drop_last());
            assert(trim_start(line).last() == '\r');
            lemma_byte_len_split(line, n);
            lemma_byte_len_split(head, n);
            assert(head.take(n) =~= line.take(n));
        }
    }
}

proof fn lemma_decimal(n: nat)
    ensures
        decimal(n).len() > 0,
        all_digits(decimal(n)),
        digits_value(decimal(n)) == n,
    decreases n,
{
    if n < 10 {
        let d = decimal(n);
        assert(d.drop_last() =~= Seq::<char>::empty());
        assert(digits_value(Seq::empty()) == 0);
        assert(d.last() == ('0' as int + n) as char);
    } else {
        lemma_decimal(n / 10);
        let head = decimal(n / 10);
        let d = decimal(n);
        assert(d.drop_last() =~= head);
        assert forall|i: int| 0 <= i < d.len() implies '0' <= #[trigger] d[i] <= '9' by {
            if i < head.len() {
                assert(d[i] == head[i]);
            }
        }
        assert((n / 10) * 10 + n % 10 == n);
    }
}

/// A number is read back from its decimal digits, with or without a plus sign, if it is
/// not too large, and nothing is read of a text that is not made of digits.
pub proof fn a_number_is_read_back_from_its_digits(n: nat, max: nat, s: Seq<char>)
    ensures
        parsed_number(decimal(n), max) == if n <= max {
            Some(n)
        } else {
            None
        },
        n <= max ==> parsed_number(seq!['+'] + decimal(n), max) == Some(n),
        parsed_number(s, max) matches Some(v) ==> v <= max && s.len() > 0 && forall|i: int|
            1 <= i < s.len() ==> '0' <= #[trigger] s[i] <= '9',
{
    lemma_decimal(n);
    let d = decimal(n);
    assert('0' <= d[0] <= '9');
    assert((seq!['+'] + d).drop_first() =~= d);
    if parsed_number(s, max) is Some {
        assert forall|i: int| 1 <= i < s.len() implies '0' <= #[trigger] s[i] <= '9' by {
            if s[0] == '+' {
                assert(s.drop_first()[i - 1] == s[i]);
            }
        }
    }
}

/// A text is its leading white space, what is left of it when it is trimmed, and its
/// trailing white space; what is left has no white space at either end.
pub proof fn trimming_takes_off_white_space_alone(s: Seq<char>)
    ensures
        exists|lead: Seq<char>, trail: Seq<char>|
            {
                &&& s == #[trigger] (lead + trimmed(s) + trail)
                &&& forall|i: int| 0 <= i < lead.len() ==> is_white_space(#[trigger] lead[i])
                &&& forall|i: int| 0 <= i < trail.len() ==> is_white_space(#[trigger] trail[i])
            },
        trimmed(s).len() > 0 ==> !is_white_space(trimmed(s)[0]) && !is_white_space(
            trimmed(s).last(),
        ),
{
    let stop = |c: char| !is_white_space(c);
    let n = leading_space(s) as int;
    lemma_span_ends(s, stop);
    let lead = s.take(n);
    let rest = s.skip(n);
    let t = trim_end(rest);
    lemma_trim_end(rest);
    lemma_trim_end_last(rest);
    let trail = rest.skip(t.len() as int);
    assert(t == trimmed(s));
    assert(s =~= lead + trimmed(s) + trail);
    assert forall|i: int| 0 <= i < lead.len() implies is_white_space(#[trigger] lead[i]) by {
        assert(!stop(s[i]));
    }
    assert forall|i: int| 0 <= i < trail.len() implies is_white_space(#[trigger] trail[i]) by {
        assert(is_white_space(rest[t.len() + i]));
    }
    if t.len() > 0 {
        assert(t[0] == rest[0] && rest[0] == s[n]);
        assert(stop(s[n]));
    }
}

proof fn lemma_trim_end_last(s: Seq<char>)
    ensures
        trim_end(s).len() > 0 ==> !is_white_space(trim_end(s).last()),
    decreases s.len(),
{
    if s.len() > 0 && is_white_space(s.last()) {
        lemma_trim_end_last(s.drop_last());
    }
}

/// The lines of a text are what lies between its line feeds: a line without a line feed,
/// put before a text, is its first line, with a carriage return before the line feed or
/// without one.
pub proof fn a_line_ends_at_a_line_feed(line: Seq<char>, rest: Seq<char>)
    requires
        !line.contains('\n'),
        line.len() == 0 || line.last() != '\r',
    ensures
        lines_of(line.push('\n') + rest) == seq![line] + lines_of(rest),
        lines_of(line.push('\r').push('\n') + rest) == seq![line] + lines_of(rest),
        line.len() > 0 ==> lines_of(line) == seq![line],
        lines_of(Seq::empty()) == Seq::<Seq<char>>::empty(),
{
    let stop = |c: char| c == '\n';
    let a = line.push('\n') + rest;
    let n = line.len() as int;
    assert(a[n] == '\n');
    assert forall|i: int| 0 <= i < n implies !stop(#[trigger] a[i]) by {
        assert(a[i] == line[i]);
    }
    lemma_span(a, stop, n);
    assert(a.take(n) =~= line);
    assert(a.skip(n + 1) =~= rest);
    let b = line.push('\r').push('\n') + rest;
    assert(b[n + 1] == '\n');
    assert forall|i: int| 0 <= i < n + 1 implies !stop(#[trigger] b[i]) by {
        if i < n {
            assert(b[i] == line[i]);
        } else {
            assert(b[i] == '\r');
        }
    }
    lemma_span(b, stop, n + 1);
    assert(b.take(n + 1) =~= line.push('\r'));
    assert(line.push('\r').drop_last() =~= line);
    assert(b.skip(n + 2) =~= rest);
    if n > 0 {
        assert forall|i: int| 0 <= i < n implies !stop(#[trigger] line[i]) by {}
        lemma_span(line, stop, n);
    }
}

} // verus!
