//! Checksums and digests.

use vstd::prelude::*;
use vstd::string::*;

verus! {

/// The CRC-32C of some bytes, as `crc32c::crc32c` computes it.
pub uninterp spec fn crc32c_of(data: Seq<u8>) -> u32;

/// What `crc32c::crc32c_append` computes from a checksum and some bytes.
pub uninterp spec fn crc32c_extended(crc: u32, data: Seq<u8>) -> u32;

/// The MD5 of some bytes, in hexadecimal, as `md5::compute` computes it.
pub uninterp spec fn md5_hex_of(data: Seq<u8>) -> Seq<char>;

/// `crc32c::crc32c`: the CRC-32C of some bytes, which is zero for none.
#[verifier::external_body]
pub(crate) fn crc32c(data: &[u8]) -> (crc: u32)
    ensures
        crc == crc32c_of(data@),
        data@.len() == 0 ==> crc == 0,
{
    crc32c::crc32c(data)
}

/// `crc32c::crc32c_append`: goes on from the checksum of the bytes so far. The
/// result is the checksum of those bytes followed by the new ones.
#[verifier::external_body]
pub(crate) fn crc32c_append(crc: u32, data: &[u8]) -> (r: u32)
    ensures
        r == crc32c_extended(crc, data@),
        forall|head: Seq<u8>| crc == crc32c_of(head) ==> r == #[trigger] crc32c_of(head + data@),
{
    crc32c::crc32c_append(crc, data)
}

/// The checksum of bytes that come in pieces.
#[derive(Debug, Clone, Copy)]
pub struct RunningCrc {
    crc: u32,
}

impl View for RunningCrc {
    type V = u32;

    closed spec fn view(&self) -> u32 {
        self.crc
    }
}

impl RunningCrc {
    /// The checksum of no bytes.
    pub fn new() -> (r: Self)
        ensures
            r@ == crc32c_of(Seq::empty()),
            r@ == 0,
    {
        let none: Vec<u8> = Vec::new();
        assert(none@ =~= Seq::<u8>::empty());
        RunningCrc { crc: crc32c(none.as_slice()) }
    }

    /// Takes the next piece. What was the checksum of the pieces so far is now that
    /// of those and this.
    pub fn update(&mut self, piece: &[u8])
        ensures
            final(self)@ == crc32c_extended(old(self)@, piece@),
            forall|head: Seq<u8>|
                old(self)@ == crc32c_of(head) ==> final(self)@ == #[trigger] crc32c_of(
                    head + piece@,
                ),
    {
        self.crc = crc32c_append(self.crc, piece);
    }

    /// The checksum of the pieces so far.
    pub fn value(&self) -> (r: u32)
        ensures
            r == self@,
    {
        self.crc
    }
}

/// A lower-case hexadecimal digit.
pub open spec fn is_lower_hex(c: char) -> bool {
    '0' <= c <= '9' || 'a' <= c <= 'f'
}

/// A hexadecimal digit of either case.
pub open spec fn is_hex(c: char) -> bool {
    is_lower_hex(c) || 'A' <= c <= 'F'
}

/// `md5::compute`, and its digest written by `{:x}`: two lower-case digits for each
/// of sixteen bytes.
#[verifier::external_body]
pub(crate) fn md5_hex(data: &[u8]) -> (s: String)
    ensures
        s@ == md5_hex_of(data@),
        s@.len() == 32,
        forall|i: int| 0 <= i < s@.len() ==> is_lower_hex(#[trigger] s@[i]),
{
    format!("{:x}", md5::compute(data))
}

/// The hexadecimal digit of a value below 16, in upper or lower case.
pub open spec fn hex_digit(n: nat, upper: bool) -> char {
    if n < 10 {
        ('0' as int + n) as char
    } else if upper {
        ('A' as int + n - 10) as char
    } else {
        ('a' as int + n - 10) as char
    }
}

/// The last `digits` hexadecimal digits of a number.
pub open spec fn hex_digits(n: nat, digits: nat, upper: bool) -> Seq<char>
    decreases digits,
{
    if digits == 0 {
        Seq::empty()
    } else {
        hex_digits(n / 16, (digits - 1) as nat, upper).push(hex_digit(n % 16, upper))
    }
}

/// A checksum in words: `0x` and eight hexadecimal digits.
pub open spec fn checksum_text(crc: u32, upper: bool) -> Seq<char> {
    "0x"@ + hex_digits(crc as nat, 8, upper)
}

fn digit(n: u8, upper: bool) -> (c: char)
    requires
        n < 16,
    ensures
        c == hex_digit(n as nat, upper),
{
    if n < 10 {
        (48 + n) as char
    } else if upper {
        (65 + (n - 10)) as char
    } else {
        (97 + (n - 10)) as char
    }
}

pub(crate) fn hex(n: u32, digits: u32, upper: bool) -> (s: String)
    ensures
        s@ == hex_digits(n as nat, digits as nat, upper),
    decreases digits,
{
    if digits == 0 {
        String::new()
    } else {
        let mut s = hex(n / 16, digits - 1, upper);
        s.push(digit((n % 16) as u8, upper));
        s
    }
}

/// A checksum in words.
pub fn checksum_string(crc: u32, upper: bool) -> (s: String)
    ensures
        s@ == checksum_text(crc, upper),
{
    let mut s = "0x".to_owned();
    s.append(hex(crc, 8, upper).as_str());
    s
}

// -- Laws -------------------------------------------------------------------

/// The value of a hexadecimal digit.
pub open spec fn hex_value(c: char) -> int {
    if '0' <= c <= '9' {
        c as int - '0' as int
    } else if 'A' <= c <= 'F' {
        c as int - 'A' as int + 10
    } else {
        c as int - 'a' as int + 10
    }
}

/// The number that hexadecimal digits stand for.
pub open spec fn hex_number(s: Seq<char>) -> int
    decreases s.len(),
{
    if s.len() == 0 {
        0
    } else {
        hex_number(s.drop_last()) * 16 + hex_value(s.last())
    }
}

proof fn lemma_hex_number(n: nat, digits: nat, upper: bool)
    ensures
        hex_digits(n, digits, upper).len() == digits,
        forall|i: int|
            0 <= i < digits ==> is_hex(#[trigger] hex_digits(n, digits, upper)[i]) && (!upper
                ==> is_lower_hex(hex_digits(n, digits, upper)[i])),
        n < vstd::arithmetic::power::pow(16, digits) ==> hex_number(hex_digits(n, digits, upper))
            == n,
    decreases digits,
{
    reveal(vstd::arithmetic::power::pow);
    if digits > 0 {
        let d = (digits - 1) as nat;
        lemma_hex_number(n / 16, d, upper);
        let head = hex_digits(n / 16, d, upper);
        let all = hex_digits(n, digits, upper);
        assert(all.drop_last() =~= head);
        let room = vstd::arithmetic::power::pow(16, d);
        assert(vstd::arithmetic::power::pow(16, digits) == 16 * room);
        assert(n < 16 * room ==> n / 16 < room);
        assert(hex_value(hex_digit(n % 16, upper)) == n % 16);
        assert forall|i: int| 0 <= i < digits implies is_hex(#[trigger] all[i]) && (!upper
            ==> is_lower_hex(all[i])) by {
            if i < d {
                assert(all[i] == head[i]);
            }
        }
    }
}

/// A checksum in words is `0x` and eight hexadecimal digits that stand for it, in lower
/// case unless upper case is asked for.
pub proof fn a_checksum_is_read_from_its_digits(crc: u32, upper: bool)
    ensures
        ({
            let s = checksum_text(crc, upper);
            &&& s.len() == 10
            &&& s.take(2) == "0x"@
            &&& hex_number(s.skip(2)) == crc
            &&& !upper ==> forall|i: int| 2 <= i < 10 ==> is_lower_hex(#[trigger] s[i])
        }),
{
    reveal_strlit("0x");
    let d = hex_digits(crc as nat, 8, upper);
    let s = checksum_text(crc, upper);
    lemma_hex_number(crc as nat, 8, upper);
    assert(vstd::arithmetic::power::pow(16, 8) == 0x1_0000_0000) by {
        reveal_with_fuel(vstd::arithmetic::power::pow, 9);
    }
    assert(s.take(2) =~= "0x"@);
    assert(s.skip(2) =~= d);
    if !upper {
        assert forall|i: int| 2 <= i < 10 implies is_lower_hex(#[trigger] s[i]) by {
            assert(s[i] == d[i - 2]);
        }
    }
}

} // verus!
