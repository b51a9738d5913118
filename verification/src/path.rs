//! Object paths.

use vstd::prelude::*;
use vstd::utf8::*;
use crate::text;

verus! {

/// The characters besides control characters that are not left as they are in a segment
/// of a path.
pub open spec fn is_awkward(c: char) -> bool {
    ||| c == '/' || c == '\\' || c == '|' || c == '"' || c == '`' || c == '^' || c == '~'
    ||| c == '{' || c == '}' || c == '[' || c == ']' || c == '<' || c == '>'
    ||| c == '%' || c == '#' || c == '*' || c == '?'
}

/// Whether a byte is escaped in a segment of a path.
pub open spec fn is_escaped(b: u8) -> bool {
    b < 0x20 || b >= 0x7f || is_awkward(b as char)
}

/// A hexadecimal digit.
pub open spec fn hex_digit(n: int) -> char {
    "0123456789ABCDEF"@[n]
}

/// Bytes as text: those to be escaped as a percent sign and two hexadecimal digits.
pub open spec fn escaped(bytes: Seq<u8>) -> Seq<char>
    decreases bytes.len(),
{
    if bytes.len() == 0 {
        Seq::empty()
    } else {
        let b = bytes.last();
        escaped(bytes.drop_last()) + if is_escaped(b) {
            seq!['%', hex_digit(b as int / 16), hex_digit(b as int % 16)]
        } else {
            seq![b as char]
        }
    }
}

/// A segment of a path: its bytes, escaped where they must be, and neither `.` nor `..`.
pub open spec fn segment(s: Seq<char>) -> Seq<char> {
    if s == "."@ {
        "%2E"@
    } else if s == ".."@ {
        "%2E%2E"@
    } else {
        escaped(encode_utf8(s))
    }
}

/// The path that a text stands for: what lies between its slashes, without empty
/// segments, with a slash between each two.
pub open spec fn normalized(s: Seq<char>) -> Seq<char>
    decreases s.len(),
{
    let n = text::span(s, |c: char| c == '/') as int;
    let rest = if n < s.len() {
        normalized(s.skip(n + 1))
    } else {
        Seq::empty()
    };
    if n == 0 {
        rest
    } else if rest.len() == 0 {
        segment(s.take(n))
    } else {
        segment(s.take(n)).push('/') + rest
    }
}

/// `object_store::path::Path::from`, and the text of the path. It splits the text at
/// slashes, leaves empty segments out, percent-encodes control characters, what is not
/// ASCII and characters that some stores take ill in each of the others, encodes
/// segments that are `.` or `..`, and joins them with slashes.
#[verifier::external_body]
pub(crate) fn path_from(s: &str) -> (r: String)
    ensures
        r@ == normalized(s@),
{
    String::from(object_store::path::Path::from(s))
}

// -- Laws -------------------------------------------------------------------

/// Whether all characters of a text are left as they are in a segment of a path.
pub open spec fn is_plain(s: Seq<char>) -> bool {
    forall|i: int|
        0 <= i < s.len() ==> '\u{20}' <= #[trigger] s[i] && s[i] < '\u{7f}' && !is_awkward(s[i])
}

proof fn lemma_escaped_both(a: Seq<u8>, b: Seq<u8>)
    ensures
        escaped(a + b) == escaped(a) + escaped(b),
    decreases b.len(),
{
    if b.len() == 0 {
        assert(a + b =~= a);
        assert(escaped(a) + escaped(b) =~= escaped(a));
    } else {
        assert((a + b).drop_last() =~= a + b.drop_last());
        lemma_escaped_both(a, b.drop_last());
        assert(escaped(a + b) =~= escaped(a) + escaped(b));
    }
}

proof fn lemma_escaped_plain(s: Seq<char>, bytes: Seq<u8>)
    requires
        is_plain(s),
        bytes.len() == s.len(),
        forall|i: int| 0 <= i < s.len() ==> #[trigger] bytes[i] == s[i] as u8,
    ensures
        escaped(bytes) == s,
    decreases s.len(),
{
    if s.len() > 0 {
        let head = s.drop_last();
        assert forall|i: int| 0 <= i < head.len() implies '\u{20}' <= #[trigger] head[i] && head[i]
            < '\u{7f}' && !is_awkward(head[i]) by {
            assert(head[i] == s[i]);
        }
        lemma_escaped_plain(head, bytes.drop_last());
        let c = s[s.len() - 1];
        assert(bytes[s.len() - 1] == c as u8);
        assert(c as u8 as char == c);
        assert(escaped(bytes) =~= head.push(c));
    }
}

/// What a text ends with stays at the end of its path, if it is left as it is in a
/// segment and is longer than the names of the directories above and at a path.
pub proof fn a_plain_end_stays_at_the_end(s: Seq<char>, end: Seq<char>)
    requires
        is_plain(end),
        end.len() > 2,
    ensures
        end.is_suffix_of(normalized(s + end)),
    decreases s.len(),
{
    let stop = |c: char| c == '/';
    let all = s + end;
    let n = text::span(all, stop) as int;
    text::lemma_span_ends(all, stop);
    if n < all.len() {
        if n >= s.len() {
            assert(all[n] == end[n - s.len()]);
        }
        let rest = s.skip(n + 1);
        assert(all.skip(n + 1) =~= rest + end);
        a_plain_end_stays_at_the_end(rest, end);
        let path = normalized(rest + end);
        if n > 0 {
            let first = segment(all.take(n)).push('/');
            assert((first + path).subrange(
                (first + path).len() - end.len(),
                (first + path).len() as int,
            ) =~= path.subrange(path.len() - end.len(), path.len() as int));
        }
    } else {
        reveal_strlit(".");
        reveal_strlit("..");
        assert(all.take(n) =~= all);
        text::lemma_byte_len_split(all, s.len() as int);
        assert(all.take(s.len() as int) =~= s);
        assert(all.skip(s.len() as int) =~= end);
        lemma_escaped_both(encode_utf8(s), encode_utf8(end));
        assert(is_ascii_chars(end));
        is_ascii_chars_encode_utf8(end);
        lemma_escaped_plain(end, encode_utf8(end));
        let head = escaped(encode_utf8(s));
        assert((head + end).subrange((head + end).len() - end.len(), (head + end).len() as int)
            =~= end);
    }
}

} // verus!
