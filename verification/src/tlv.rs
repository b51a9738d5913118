//! Variable-length TLV metadata encoding and decoding.
//!
//! Layout: TLV entries one after the other, without padding, marker or fixed size.
//!
//! Known-field entry (tags 1 to 7):
//!
//! - listed value: `[tag | 0x80] [index]`, two bytes;
//! - other value: `[tag] [len: u16 LE] [value]`, `3 + len` bytes.
//!
//! The lookup bit stands on the tag byte, so that a length whose low byte is 128
//! or more is never taken for a listed value. Tags 1 to 7 with the bit set are
//! 0x81 to 0x87, none of which is the custom tag 0x80.
//!
//! Custom `x-amz-meta-*` entry (tag 128):
//! `[128] [slen: u16 LE] [suffix] [vlen: u16 LE] [value]`.

use vstd::prelude::*;
use vstd::string::*;
use vstd::utf8::*;
use crate::string_map;
use crate::string_map::StringMap;
use crate::text;
use crate::text::{number, str_eq, strip_prefix};

verus! {

/// Bit of a tag byte that marks a value given by its index.
pub const LOOKUP_BIT: u8 = 0x80;

pub const TAG_CONTENT_TYPE: u8 = 1;

pub const TAG_CACHE_CONTROL: u8 = 2;

pub const TAG_CONTENT_DISPOSITION: u8 = 3;

pub const TAG_CONTENT_ENCODING: u8 = 4;

pub const TAG_CONTENT_LANGUAGE: u8 = 5;

pub const TAG_EXPIRES: u8 = 6;

pub const TAG_ETAG: u8 = 7;

/// Tag of a user-defined `x-amz-meta-*` field.
pub const TAG_CUSTOM: u8 = 128;

/// The most bytes that one value or key suffix can have: lengths are `u16`.
pub const MAX_FIELD_LEN: usize = 65535;

/// The tag of a well-known field.
pub open spec fn tag_of(name: Seq<char>) -> Option<u8> {
    if name == "content-type"@ {
        Some(TAG_CONTENT_TYPE)
    } else if name == "cache-control"@ {
        Some(TAG_CACHE_CONTROL)
    } else if name == "content-disposition"@ {
        Some(TAG_CONTENT_DISPOSITION)
    } else if name == "content-encoding"@ {
        Some(TAG_CONTENT_ENCODING)
    } else if name == "content-language"@ {
        Some(TAG_CONTENT_LANGUAGE)
    } else if name == "expires"@ {
        Some(TAG_EXPIRES)
    } else if name == "etag"@ {
        Some(TAG_ETAG)
    } else {
        None
    }
}

/// The field of a tag.
pub open spec fn field_of(tag: u8) -> Option<Seq<char>> {
    if tag == TAG_CONTENT_TYPE {
        Some("content-type"@)
    } else if tag == TAG_CACHE_CONTROL {
        Some("cache-control"@)
    } else if tag == TAG_CONTENT_DISPOSITION {
        Some("content-disposition"@)
    } else if tag == TAG_CONTENT_ENCODING {
        Some("content-encoding"@)
    } else if tag == TAG_CONTENT_LANGUAGE {
        Some("content-language"@)
    } else if tag == TAG_EXPIRES {
        Some("expires"@)
    } else if tag == TAG_ETAG {
        Some("etag"@)
    } else {
        None
    }
}

/// The tag of a well-known field.
pub fn field_name_to_tag(name: &str) -> (r: Option<u8>)
    ensures
        r == tag_of(name@),
{
    if str_eq(name, "content-type") {
        Some(TAG_CONTENT_TYPE)
    } else if str_eq(name, "cache-control") {
        Some(TAG_CACHE_CONTROL)
    } else if str_eq(name, "content-disposition") {
        Some(TAG_CONTENT_DISPOSITION)
    } else if str_eq(name, "content-encoding") {
        Some(TAG_CONTENT_ENCODING)
    } else if str_eq(name, "content-language") {
        Some(TAG_CONTENT_LANGUAGE)
    } else if str_eq(name, "expires") {
        Some(TAG_EXPIRES)
    } else if str_eq(name, "etag") {
        Some(TAG_ETAG)
    } else {
        None
    }
}

/// The field of a tag.
pub fn tag_to_field_name(tag: u8) -> (r: Option<&'static str>)
    ensures
        match r {
            Some(name) => field_of(tag) == Some(name@),
            None => field_of(tag) is None,
        },
{
    if tag == TAG_CONTENT_TYPE {
        Some("content-type")
    } else if tag == TAG_CACHE_CONTROL {
        Some("cache-control")
    } else if tag == TAG_CONTENT_DISPOSITION {
        Some("content-disposition")
    } else if tag == TAG_CONTENT_ENCODING {
        Some("content-encoding")
    } else if tag == TAG_CONTENT_LANGUAGE {
        Some("content-language")
    } else if tag == TAG_EXPIRES {
        Some("expires")
    } else if tag == TAG_ETAG {
        Some("etag")
    } else {
        None
    }
}

/// The content types that an entry can name by their index. An index is part of the
/// encoding: new values go at the end.
pub open spec fn content_type_values() -> Seq<Seq<char>> {
    seq![
        "application/octet-stream"@,
        "text/plain"@,
        "text/html"@,
        "text/css"@,
        "text/csv"@,
        "application/json"@,
        "application/xml"@,
        "image/png"@,
        "image/jpeg"@,
        "image/gif"@,
        "image/webp"@,
        "image/svg+xml"@,
        "application/pdf"@,
        "application/zip"@,
        "video/mp4"@,
        "audio/mpeg"@,
        "application/javascript"@,
        "text/xml"@,
        "application/x-www-form-urlencoded"@,
        "multipart/form-data"@,
        "application/gzip"@,
        "application/x-tar"@,
        "image/tiff"@,
        "audio/wav"@,
        "video/webm"@,
        "application/wasm"@,
        "font/woff2"@,
        "font/woff"@,
        "text/plain; charset=utf-8"@,
        "application/json; charset=utf-8"@,
        "text/html; charset=utf-8"@,
        "binary/octet-stream"@,
    ]
}

/// The value at an index of the content types.
fn content_type_value(idx: u8) -> (r: Option<&'static str>)
    ensures
        match r {
            Some(v) => idx < content_type_values().len() && v@ == content_type_values()[idx as int],
            None => idx >= content_type_values().len(),
        },
{
    match idx {
        0 => Some("application/octet-stream"),
        1 => Some("text/plain"),
        2 => Some("text/html"),
        3 => Some("text/css"),
        4 => Some("text/csv"),
        5 => Some("application/json"),
        6 => Some("application/xml"),
        7 => Some("image/png"),
        8 => Some("image/jpeg"),
        9 => Some("image/gif"),
        10 => Some("image/webp"),
        11 => Some("image/svg+xml"),
        12 => Some("application/pdf"),
        13 => Some("application/zip"),
        14 => Some("video/mp4"),
        15 => Some("audio/mpeg"),
        16 => Some("application/javascript"),
        17 => Some("text/xml"),
        18 => Some("application/x-www-form-urlencoded"),
        19 => Some("multipart/form-data"),
        20 => Some("application/gzip"),
        21 => Some("application/x-tar"),
        22 => Some("image/tiff"),
        23 => Some("audio/wav"),
        24 => Some("video/webm"),
        25 => Some("application/wasm"),
        26 => Some("font/woff2"),
        27 => Some("font/woff"),
        28 => Some("text/plain; charset=utf-8"),
        29 => Some("application/json; charset=utf-8"),
        30 => Some("text/html; charset=utf-8"),
        31 => Some("binary/octet-stream"),
        _ => None,
    }
}

/// The cache directives that an entry can name by their index. An index is part of the
/// encoding: new values go at the end.
pub open spec fn cache_control_values() -> Seq<Seq<char>> {
    seq![
        "no-cache"@,
        "no-store"@,
        "no-cache, no-store"@,
        "private"@,
        "public"@,
        "must-revalidate"@,
        "max-age=0"@,
        "max-age=60"@,
        "max-age=300"@,
        "max-age=3600"@,
        "max-age=86400"@,
        "max-age=604800"@,
        "max-age=2592000"@,
        "max-age=31536000"@,
        "public, max-age=3600"@,
        "public, max-age=86400"@,
        "public, max-age=31536000"@,
        "public, max-age=31536000, immutable"@,
        "private, no-cache"@,
        "no-store, must-revalidate"@,
    ]
}

/// The value at an index of the cache directives.
fn cache_control_value(idx: u8) -> (r: Option<&'static str>)
    ensures
        match r {
            Some(v) => idx < cache_control_values().len() && v@ == cache_control_values()[idx as int],
            None => idx >= cache_control_values().len(),
        },
{
    match idx {
        0 => Some("no-cache"),
        1 => Some("no-store"),
        2 => Some("no-cache, no-store"),
        3 => Some("private"),
        4 => Some("public"),
        5 => Some("must-revalidate"),
        6 => Some("max-age=0"),
        7 => Some("max-age=60"),
        8 => Some("max-age=300"),
        9 => Some("max-age=3600"),
        10 => Some("max-age=86400"),
        11 => Some("max-age=604800"),
        12 => Some("max-age=2592000"),
        13 => Some("max-age=31536000"),
        14 => Some("public, max-age=3600"),
        15 => Some("public, max-age=86400"),
        16 => Some("public, max-age=31536000"),
        17 => Some("public, max-age=31536000, immutable"),
        18 => Some("private, no-cache"),
        19 => Some("no-store, must-revalidate"),
        _ => None,
    }
}

/// The content encodings that an entry can name by their index. An index is part of the
/// encoding: new values go at the end.
pub open spec fn content_encoding_values() -> Seq<Seq<char>> {
    seq![
        "gzip"@,
        "br"@,
        "deflate"@,
        "identity"@,
        "zstd"@,
        "compress"@,
    ]
}

/// The value at an index of the content encodings.
fn content_encoding_value(idx: u8) -> (r: Option<&'static str>)
    ensures
        match r {
            Some(v) => idx < content_encoding_values().len() && v@ == content_encoding_values()[idx as int],
            None => idx >= content_encoding_values().len(),
        },
{
    match idx {
        0 => Some("gzip"),
        1 => Some("br"),
        2 => Some("deflate"),
        3 => Some("identity"),
        4 => Some("zstd"),
        5 => Some("compress"),
        _ => None,
    }
}

/// The listed values of a field, by index.
pub open spec fn values_of(tag: u8) -> Seq<Seq<char>> {
    if tag == TAG_CONTENT_TYPE {
        content_type_values()
    } else if tag == TAG_CACHE_CONTROL {
        cache_control_values()
    } else if tag == TAG_CONTENT_ENCODING {
        content_encoding_values()
    } else {
        Seq::empty()
    }
}

/// The index of a listed value.
pub open spec fn index_of_value(tag: u8, value: Seq<char>) -> Option<u8> {
    match values_of(tag).index_of_first(value) {
        Some(i) => Some(i as u8),
        None => None,
    }
}

/// The value at an index.
pub open spec fn value_at_index(tag: u8, idx: u8) -> Option<Seq<char>> {
    if idx < values_of(tag).len() {
        Some(values_of(tag)[idx as int])
    } else {
        None
    }
}

/// The value at an index of the list of a field.
pub fn value_from_lookup(tag: u8, idx: u8) -> (r: Option<&'static str>)
    ensures
        match r {
            Some(v) => value_at_index(tag, idx) == Some(v@),
            None => value_at_index(tag, idx) is None,
        },
{
    if tag == TAG_CONTENT_TYPE {
        content_type_value(idx)
    } else if tag == TAG_CACHE_CONTROL {
        cache_control_value(idx)
    } else if tag == TAG_CONTENT_ENCODING {
        content_encoding_value(idx)
    } else {
        None
    }
}

/// The index of a value in the list of a field.
pub fn value_lookup(tag: u8, value: &str) -> (r: Option<u8>)
    ensures
        r == index_of_value(tag, value@),
{
    let ghost t = values_of(tag);
    proof {
        t.index_of_first_ensures(value@);
    }
    let mut i: u8 = 0;
    loop
        invariant
            t == values_of(tag),
            i <= t.len() <= 32,
            forall|j: int| 0 <= j < i ==> t[j] != value@,
            match t.index_of_first(value@) {
                Some(index) => 0 <= index < t.len() && t[index] == value@ && forall|j: int|
                    0 <= j < index ==> t[j] != value@,
                None => !t.contains(value@),
            },
        decreases 32 - i,
    {
        match value_from_lookup(tag, i) {
            None => {
                return None;
            },
            Some(v) => {
                if str_eq(v, value) {
                    assert(t.contains(value@));
                    return Some(i);
                }
            },
        }
        i = i + 1;
    }
}

/// No two content types are the same.
proof fn lemma_content_type_distinct()
    ensures
        content_type_values().no_duplicates(),
{
    reveal_strlit("application/octet-stream");
    reveal_strlit("text/plain");
    reveal_strlit("text/html");
    reveal_strlit("text/css");
    reveal_strlit("text/csv");
    reveal_strlit("application/json");
    reveal_strlit("application/xml");
    reveal_strlit("image/png");
    reveal_strlit("image/jpeg");
    reveal_strlit("image/gif");
    reveal_strlit("image/webp");
    reveal_strlit("image/svg+xml");
    reveal_strlit("application/pdf");
    reveal_strlit("application/zip");
    reveal_strlit("video/mp4");
    reveal_strlit("audio/mpeg");
    reveal_strlit("application/javascript");
    reveal_strlit("text/xml");
    reveal_strlit("application/x-www-form-urlencoded");
    reveal_strlit("multipart/form-data");
    reveal_strlit("application/gzip");
    reveal_strlit("application/x-tar");
    reveal_strlit("image/tiff");
    reveal_strlit("audio/wav");
    reveal_strlit("video/webm");
    reveal_strlit("application/wasm");
    reveal_strlit("font/woff2");
    reveal_strlit("font/woff");
    reveal_strlit("text/plain; charset=utf-8");
    reveal_strlit("application/json; charset=utf-8");
    reveal_strlit("text/html; charset=utf-8");
    reveal_strlit("binary/octet-stream");
    let t = content_type_values();
    assert(t[0].len() == 24);
    assert(t[1].len() == 10);
    assert(t[2].len() == 9);
    assert(t[3].len() == 8);
    assert(t[4].len() == 8);
    assert(t[5].len() == 16);
    assert(t[6].len() == 15);
    assert(t[7].len() == 9);
    assert(t[8].len() == 10);
    assert(t[9].len() == 9);
    assert(t[10].len() == 10);
    assert(t[11].len() == 13);
    assert(t[12].len() == 15);
    assert(t[13].len() == 15);
    assert(t[14].len() == 9);
    assert(t[15].len() == 10);
    assert(t[16].len() == 22);
    assert(t[17].len() == 8);
    assert(t[18].len() == 33);
    assert(t[19].len() == 19);
    assert(t[20].len() == 16);
    assert(t[21].len() == 17);
    assert(t[22].len() == 10);
    assert(t[23].len() == 9);
    assert(t[24].len() == 10);
    assert(t[25].len() == 16);
    assert(t[26].len() == 10);
    assert(t[27].len() == 9);
    assert(t[28].len() == 25);
    assert(t[29].len() == 31);
    assert(t[30].len() == 24);
    assert(t[31].len() == 19);
    assert(t[0][0] != t[30][0]);
    assert(t[1][0] != t[8][0]);
    assert(t[1][0] != t[10][0]);
    assert(t[1][0] != t[15][0]);
    assert(t[1][0] != t[22][0]);
    assert(t[1][0] != t[24][0]);
    assert(t[1][0] != t[26][0]);
    assert(t[2][0] != t[7][0]);
    assert(t[2][0] != t[9][0]);
    assert(t[2][0] != t[14][0]);
    assert(t[2][0] != t[23][0]);
    assert(t[2][0] != t[27][0]);
    assert(t[3][7] != t[4][7]);
    assert(t[3][5] != t[17][5]);
    assert(t[4][5] != t[17][5]);
    assert(t[5][12] != t[20][12]);
    assert(t[5][12] != t[25][12]);
    assert(t[6][12] != t[12][12]);
    assert(t[6][12] != t[13][12]);
    assert(t[7][6] != t[9][6]);
    assert(t[7][0] != t[14][0]);
    assert(t[7][0] != t[23][0]);
    assert(t[7][0] != t[27][0]);
    assert(t[8][6] != t[10][6]);
    assert(t[8][0] != t[15][0]);
    assert(t[8][6] != t[22][6]);
    assert(t[8][0] != t[24][0]);
    assert(t[8][0] != t[26][0]);
    assert(t[9][0] != t[14][0]);
    assert(t[9][0] != t[23][0]);
    assert(t[9][0] != t[27][0]);
    assert(t[10][0] != t[15][0]);
    assert(t[10][6] != t[22][6]);
    assert(t[10][0] != t[24][0]);
    assert(t[10][0] != t[26][0]);
    assert(t[12][12] != t[13][12]);
    assert(t[14][0] != t[23][0]);
    assert(t[14][0] != t[27][0]);
    assert(t[15][0] != t[22][0]);
    assert(t[15][0] != t[24][0]);
    assert(t[15][0] != t[26][0]);
    assert(t[19][0] != t[31][0]);
    assert(t[20][12] != t[25][12]);
    assert(t[22][0] != t[24][0]);
    assert(t[22][0] != t[26][0]);
    assert(t[23][0] != t[27][0]);
    assert(t[24][0] != t[26][0]);
    assert forall|i: int, j: int| 0 <= i < t.len() && 0 <= j < t.len() && i != j implies t[i] != t[j] by {
    }
}

/// No two cache directives are the same.
proof fn lemma_cache_control_distinct()
    ensures
        cache_control_values().no_duplicates(),
{
    reveal_strlit("no-cache");
    reveal_strlit("no-store");
    reveal_strlit("no-cache, no-store");
    reveal_strlit("private");
    reveal_strlit("public");
    reveal_strlit("must-revalidate");
    reveal_strlit("max-age=0");
    reveal_strlit("max-age=60");
    reveal_strlit("max-age=300");
    reveal_strlit("max-age=3600");
    reveal_strlit("max-age=86400");
    reveal_strlit("max-age=604800");
    reveal_strlit("max-age=2592000");
    reveal_strlit("max-age=31536000");
    reveal_strlit("public, max-age=3600");
    reveal_strlit("public, max-age=86400");
    reveal_strlit("public, max-age=31536000");
    reveal_strlit("public, max-age=31536000, immutable");
    reveal_strlit("private, no-cache");
    reveal_strlit("no-store, must-revalidate");
    let t = cache_control_values();
    assert(t[0].len() == 8);
    assert(t[1].len() == 8);
    assert(t[2].len() == 18);
    assert(t[3].len() == 7);
    assert(t[4].len() == 6);
    assert(t[5].len() == 15);
    assert(t[6].len() == 9);
    assert(t[7].len() == 10);
    assert(t[8].len() == 11);
    assert(t[9].len() == 12);
    assert(t[10].len() == 13);
    assert(t[11].len() == 14);
    assert(t[12].len() == 15);
    assert(t[13].len() == 16);
    assert(t[14].len() == 20);
    assert(t[15].len() == 21);
    assert(t[16].len() == 24);
    assert(t[17].len() == 35);
    assert(t[18].len() == 17);
    assert(t[19].len() == 25);
    assert(t[0][3] != t[1][3]);
    assert(t[5][1] != t[12][1]);
    assert forall|i: int, j: int| 0 <= i < t.len() && 0 <= j < t.len() && i != j implies t[i] != t[j] by {
    }
}

/// No two content encodings are the same.
proof fn lemma_content_encoding_distinct()
    ensures
        content_encoding_values().no_duplicates(),
{
    reveal_strlit("gzip");
    reveal_strlit("br");
    reveal_strlit("deflate");
    reveal_strlit("identity");
    reveal_strlit("zstd");
    reveal_strlit("compress");
    let t = content_encoding_values();
    assert(t[0].len() == 4);
    assert(t[1].len() == 2);
    assert(t[2].len() == 7);
    assert(t[3].len() == 8);
    assert(t[4].len() == 4);
    assert(t[5].len() == 8);
    assert(t[0][0] != t[4][0]);
    assert(t[3][0] != t[5][0]);
    assert forall|i: int, j: int| 0 <= i < t.len() && 0 <= j < t.len() && i != j implies t[i] != t[j] by {
    }
}

/// A field name and its tag give each other back.
pub proof fn field_names_and_tags_are_inverse(name: Seq<char>, tag: u8)
    ensures
        tag_of(name) == Some(tag) <==> field_of(tag) == Some(name),
{
    reveal_strlit("content-type");
    reveal_strlit("cache-control");
    reveal_strlit("content-disposition");
    reveal_strlit("content-encoding");
    reveal_strlit("content-language");
    reveal_strlit("expires");
    reveal_strlit("etag");
    assert("content-type"@.len() == 12);
    assert("cache-control"@.len() == 13);
    assert("content-disposition"@.len() == 19);
    assert("content-encoding"@.len() == 16);
    assert("content-language"@.len() == 16);
    assert("expires"@.len() == 7);
    assert("etag"@.len() == 4);
    assert("content-encoding"@[8] != "content-language"@[8]);
}

/// A listed value and its index give each other back.
pub proof fn listed_values_and_indices_are_inverse(tag: u8, value: Seq<char>, idx: u8)
    ensures
        index_of_value(tag, value) == Some(idx) <==> value_at_index(tag, idx) == Some(value),
{
    let t = values_of(tag);
    t.index_of_first_ensures(value);
    lemma_content_type_distinct();
    lemma_cache_control_distinct();
    lemma_content_encoding_distinct();
    assert(t.no_duplicates());
    if value_at_index(tag, idx) == Some(value) {
        assert(t.contains(value));
    }
}

/// Error of `core::str::from_utf8`, carried through unread.
#[verifier::external_type_specification]
#[verifier::external_body]
pub struct ExUtf8Error(core::str::Utf8Error);

/// `core::str::from_utf8` returns the string of the given bytes if they are valid
/// UTF-8, and an error if they are not.
pub assume_specification[ core::str::from_utf8 ](v: &[u8]) -> (r: Result<
    &str,
    core::str::Utf8Error,
>)
    ensures
        match r {
            Ok(s) => valid_utf8(v@) && s@ == decode_utf8(v@),
            Err(_) => !valid_utf8(v@),
        },
;

/// A field whose value or key suffix is longer than an entry can hold.
pub struct Oversize {
    pub field: Seq<char>,
    pub len: nat,
}

/// Error returned when a metadata field exceeds the limit of the encoding.
#[derive(Debug)]
pub struct MetadataTooLarge {
    pub field: String,
    pub len: usize,
    pub max: usize,
}

impl View for MetadataTooLarge {
    type V = Oversize;

    open spec fn view(&self) -> Oversize {
        Oversize { field: self.field@, len: self.len as nat }
    }
}

impl MetadataTooLarge {
    /// The error in words.
    pub fn message(&self) -> (s: String)
        ensures
            s@ == "metadata field '"@ + self.field@ + "' is "@ + text::decimal(self.len as nat)
                + " bytes, exceeds maximum "@ + text::decimal(self.max as nat) + " bytes"@,
    {
        let mut s = "metadata field '".to_owned();
        s.append(self.field.as_str());
        s.append("' is ");
        s.append(number(self.len as u64).as_str());
        s.append(" bytes, exceeds maximum ");
        s.append(number(self.max as u64).as_str());
        s.append(" bytes");
        s
    }
}

/// The two bytes of a length, low byte first.
pub open spec fn le16(n: nat) -> Seq<u8> {
    seq![(n % 256) as u8, (n / 256) as u8]
}

/// The length stored at a position.
pub open spec fn u16_at(data: Seq<u8>, i: int) -> nat {
    (data[i] as nat) + 256 * (data[i + 1] as nat)
}

/// The prefix of user-defined fields.
pub open spec fn custom_prefix() -> Seq<char> {
    "x-amz-meta-"@
}

/// The entry of one field: empty if the field is not one that metadata keeps.
pub open spec fn encode_field(key: Seq<char>, value: Seq<char>) -> Result<Seq<u8>, Oversize> {
    let v = encode_utf8(value);
    match tag_of(key) {
        Some(tag) => match index_of_value(tag, value) {
            Some(idx) => Ok(seq![(tag + 128) as u8, idx]),
            None => if v.len() > MAX_FIELD_LEN {
                Err(Oversize { field: key, len: v.len() })
            } else {
                Ok(seq![tag] + le16(v.len()) + v)
            },
        },
        None => match text::after_prefix(key, custom_prefix()) {
            Some(suffix) => {
                let k = encode_utf8(suffix);
                if k.len() > MAX_FIELD_LEN {
                    Err(Oversize { field: key, len: k.len() })
                } else if v.len() > MAX_FIELD_LEN {
                    Err(Oversize { field: key, len: v.len() })
                } else {
                    Ok(seq![TAG_CUSTOM] + le16(k.len()) + k + le16(v.len()) + v)
                }
            },
            None => Ok(Seq::empty()),
        },
    }
}

/// Bytes put before the bytes of a successful encoding.
pub open spec fn prepend(head: Seq<u8>, tail: Result<Seq<u8>, Oversize>) -> Result<
    Seq<u8>,
    Oversize,
> {
    match tail {
        Ok(bytes) => Ok(head + bytes),
        Err(e) => Err(e),
    }
}

/// The entries of some fields, in order; the first field that is too long is an
/// error.
pub open spec fn encode_fields(
    keys: Seq<Seq<char>>,
    meta: Map<Seq<char>, Seq<char>>,
) -> Result<Seq<u8>, Oversize>
    decreases keys.len(),
{
    if keys.len() == 0 {
        Ok(Seq::empty())
    } else {
        match encode_field(keys[0], meta[keys[0]]) {
            Ok(bytes) => prepend(bytes, encode_fields(keys.drop_first(), meta)),
            Err(e) => Err(e),
        }
    }
}

/// The encoding of metadata: the entries of its fields in the order of the keys.
pub open spec fn encoded(meta: Map<Seq<char>, Seq<char>>) -> Result<Seq<u8>, Oversize> {
    encode_fields(string_map::sorted(meta.dom()), meta)
}

/// The text of some bytes, empty if they are not UTF-8.
pub open spec fn text_of(bytes: Seq<u8>) -> Seq<char> {
    if valid_utf8(bytes) {
        decode_utf8(bytes)
    } else {
        Seq::empty()
    }
}

/// The first entry of some bytes: its field, if it has one that metadata keeps,
/// and its length.
pub struct Entry {
    pub field: Option<(Seq<char>, Seq<char>)>,
    pub len: nat,
}

/// The first entry of some bytes, unless it is cut short.
pub open spec fn first_entry(data: Seq<u8>) -> Option<Entry>
    recommends
        data.len() > 0,
{
    let tag = data[0];
    if tag == TAG_CUSTOM {
        let slen = u16_at(data, 1) as int;
        let vlen = u16_at(data, 3 + slen) as int;
        if data.len() < 3 || data.len() < 5 + slen || data.len() < 5 + slen + vlen {
            None
        } else {
            let suffix = text_of(data.subrange(3, 3 + slen));
            let value = text_of(data.subrange(5 + slen, 5 + slen + vlen));
            Some(
                Entry {
                    field: Some((custom_prefix() + suffix, value)),
                    len: (5 + slen + vlen) as nat,
                },
            )
        }
    } else if tag > 128 {
        let tag = (tag - 128) as u8;
        if data.len() < 2 {
            None
        } else {
            match (value_at_index(tag, data[1]), field_of(tag)) {
                (Some(value), Some(name)) => Some(Entry { field: Some((name, value)), len: 2 }),
                _ => Some(Entry { field: None, len: 2 }),
            }
        }
    } else {
        let vlen = u16_at(data, 1) as int;
        if data.len() < 3 || data.len() < 3 + vlen {
            None
        } else {
            match field_of(tag) {
                Some(name) => Some(
                    Entry {
                        field: Some((name, text_of(data.subrange(3, 3 + vlen)))),
                        len: (3 + vlen) as nat,
                    },
                ),
                None => Some(Entry { field: None, len: (3 + vlen) as nat }),
            }
        }
    }
}

/// The fields of some bytes added to a map: entry by entry up to the first that is
/// cut short, a later field replacing an earlier one of the same name.
pub open spec fn decode_onto(
    data: Seq<u8>,
    meta: Map<Seq<char>, Seq<char>>,
) -> Map<Seq<char>, Seq<char>>
    decreases data.len(),
{
    if data.len() == 0 {
        meta
    } else {
        match first_entry(data) {
            None => meta,
            Some(e) => {
                let meta = match e.field {
                    Some((name, value)) => meta.insert(name, value),
                    None => meta,
                };
                decode_onto(data.skip(e.len as int), meta)
            },
        }
    }
}

/// The metadata that some bytes hold.
pub open spec fn decoded(data: Seq<u8>) -> Map<Seq<char>, Seq<char>> {
    decode_onto(data, Map::empty())
}

/// Appends the bytes of a length.
fn push_len(buf: &mut Vec<u8>, n: usize)
    requires
        n <= MAX_FIELD_LEN,
    ensures
        final(buf)@ == old(buf)@ + le16(n as nat),
{
    buf.push((n % 256) as u8);
    buf.push((n / 256) as u8);
    assert(buf@ =~= old(buf)@ + le16(n as nat));
}

/// Appends bytes.
fn push_bytes(buf: &mut Vec<u8>, bytes: &[u8])
    ensures
        final(buf)@ == old(buf)@ + bytes@,
{
    buf.extend_from_slice(bytes);
    assert(buf@ =~= old(buf)@ + bytes@);
}

/// Appends the entry of one field.
fn push_field(buf: &mut Vec<u8>, key: &String, value: &String) -> (r: Result<(), MetadataTooLarge>)
    ensures
        match r {
            Ok(_) => encode_field(key@, value@) is Ok && final(buf)@ == old(buf)@ + encode_field(
                key@,
                value@,
            )->Ok_0,
            Err(e) => encode_field(key@, value@) == Err::<Seq<u8>, Oversize>(e@) && e.max
                == MAX_FIELD_LEN,
        },
{
    let ghost before = buf@;
    if let Some(tag) = field_name_to_tag(key.as_str()) {
        if let Some(idx) = value_lookup(tag, value.as_str()) {
            proof {
                assert(tag <= 7 ==> (tag | 0x80u8) == tag + 128) by (bit_vector);
            }
            buf.push(tag | LOOKUP_BIT);
            buf.push(idx);
            assert(buf@ =~= before + seq![(tag + 128) as u8, idx]);
            return Ok(());
        }
        let vb = value.as_str().as_bytes();
        if vb.len() > MAX_FIELD_LEN {
            return Err(
                MetadataTooLarge { field: key.clone(), len: vb.len(), max: MAX_FIELD_LEN },
            );
        }
        buf.push(tag);
        push_len(buf, vb.len());
        push_bytes(buf, vb);
        assert(buf@ =~= before + (seq![tag] + le16(vb@.len()) + vb@));
    } else if let Some(suffix) = strip_prefix(key.as_str(), "x-amz-meta-") {
        let sb = suffix.as_bytes();
        if sb.len() > MAX_FIELD_LEN {
            return Err(
                MetadataTooLarge { field: key.clone(), len: sb.len(), max: MAX_FIELD_LEN },
            );
        }
        let vb = value.as_str().as_bytes();
        if vb.len() > MAX_FIELD_LEN {
            return Err(
                MetadataTooLarge { field: key.clone(), len: vb.len(), max: MAX_FIELD_LEN },
            );
        }
        buf.push(TAG_CUSTOM);
        push_len(buf, sb.len());
        push_bytes(buf, sb);
        push_len(buf, vb.len());
        push_bytes(buf, vb);
        assert(buf@ =~= before + (seq![TAG_CUSTOM] + le16(sb@.len()) + sb@ + le16(vb@.len())
            + vb@));
    } else {
        assert(buf@ =~= before + Seq::<u8>::empty());
    }
    Ok(())
}

/// Encodes metadata into TLV bytes, without padding. Equal metadata has equal
/// bytes.
///
/// A field whose key suffix or value has more than 65535 bytes is an error.
pub fn encode_metadata(meta: &StringMap<String>) -> (r: Result<Vec<u8>, MetadataTooLarge>)
    ensures
        match r {
            Ok(bytes) => encoded(meta@) == Ok::<Seq<u8>, Oversize>(bytes@),
            Err(e) => encoded(meta@) == Err::<Seq<u8>, Oversize>(e@) && e.max == MAX_FIELD_LEN,
        },
{
    let mut buf: Vec<u8> = Vec::new();
    let n: usize = meta.len();
    let ghost keys = string_map::sorted(meta@.dom());
    let mut i: usize = 0;
    assert(keys.skip(0) =~= keys);
    proof {
        lemma_prepend_empty(encode_fields(keys, meta@));
    }
    while i < n
        invariant
            i <= n,
            n == keys.len(),
            keys == string_map::sorted(meta@.dom()),
            prepend(buf@, encode_fields(keys.skip(i as int), meta@)) == encode_fields(keys, meta@),
        decreases n - i,
    {
        let ghost rest = keys.skip(i as int);
        let ghost before = buf@;
        let key = meta.key_at(i);
        let value = meta.value_at(i);
        assert(rest[0] == key@);
        push_field(&mut buf, key, value)?;
        assert(rest.drop_first() =~= keys.skip(i + 1));
        proof {
            lemma_prepend_twice(
                before,
                encode_field(key@, value@)->Ok_0,
                encode_fields(keys.skip(i + 1), meta@),
            );
        }
        i = i + 1;
    }
    assert(keys.skip(i as int) =~= Seq::<Seq<char>>::empty());
    assert(buf@ + Seq::<u8>::empty() =~= buf@);
    Ok(buf)
}

proof fn lemma_prepend_empty(r: Result<Seq<u8>, Oversize>)
    ensures
        prepend(Seq::empty(), r) == r,
{
    if let Ok(b) = r {
        assert(Seq::<u8>::empty() + b =~= b);
    }
}

proof fn lemma_prepend_twice(a: Seq<u8>, b: Seq<u8>, r: Result<Seq<u8>, Oversize>)
    ensures
        prepend(a, prepend(b, r)) == prepend(a + b, r),
{
    if let Ok(c) = r {
        assert(a + (b + c) =~= (a + b) + c);
    }
}

/// The length stored at a position.
fn read_len(data: &[u8], i: usize) -> (n: usize)
    requires
        i + 2 <= data.len(),
    ensures
        n == u16_at(data@, i as int),
        n <= MAX_FIELD_LEN,
{
    data[i] as usize + 256 * (data[i + 1] as usize)
}

/// The text of the bytes `from..to`, empty if they are not UTF-8.
fn read_text(data: &[u8], from: usize, to: usize) -> (s: String)
    requires
        from <= to <= data.len(),
    ensures
        s@ == text_of(data@.subrange(from as int, to as int)),
{
    match core::str::from_utf8(&data[from..to]) {
        Ok(s) => s.to_owned(),
        Err(_) => String::new(),
    }
}

/// Decodes TLV bytes. Decoding stops at an entry that is cut short; text that is
/// not UTF-8 is read as empty; entries with unknown tags are skipped.
pub fn decode_metadata(data: &[u8]) -> (meta: StringMap<String>)
    ensures
        meta@ == decoded(data@),
{
    let mut map: StringMap<String> = StringMap::new();
    let mut pos: usize = 0;
    assert(data@.skip(0) =~= data@);
    while pos < data.len()
        invariant
            pos <= data.len(),
            decode_onto(data@.skip(pos as int), map@) == decoded(data@),
        decreases data.len() - pos,
    {
        let ghost rest = data@.skip(pos as int);
        let left: usize = data.len() - pos;
        let tag_byte: u8 = data[pos];
        proof {
            assert(rest[0] == tag_byte);
            assert(left >= 3 ==> u16_at(rest, 1) == u16_at(data@, pos + 1));
            assert(tag_byte & 0x80 != 0 <==> tag_byte >= 128) by (bit_vector);
            assert(tag_byte >= 128 ==> tag_byte & 0x7f == tag_byte - 128) by (bit_vector);
        }
        if tag_byte == TAG_CUSTOM {
            if left < 3 {
                return map;
            }
            let slen: usize = read_len(data, pos + 1);
            if left < 5 || left - 5 < slen {
                return map;
            }
            assert(u16_at(rest, 3 + slen) == u16_at(data@, pos + 3 + slen));
            let vlen: usize = read_len(data, pos + 3 + slen);
            if left - 5 - slen < vlen {
                return map;
            }
            let suffix = read_text(data, pos + 3, pos + 3 + slen);
            let value = read_text(data, pos + 5 + slen, pos + 5 + slen + vlen);
            assert(data@.subrange(pos + 3, pos + 3 + slen) =~= rest.subrange(3, 3 + slen));
            assert(data@.subrange(pos + 5 + slen, pos + 5 + slen + vlen) =~= rest.subrange(
                5 + slen,
                5 + slen + vlen,
            ));
            let mut name = "x-amz-meta-".to_owned();
            name.append(suffix.as_str());
            map.insert(name, value);
            assert(rest.skip(5 + slen + vlen) =~= data@.skip(pos + 5 + slen + vlen));
            pos = pos + 5 + slen + vlen;
        } else if tag_byte & LOOKUP_BIT != 0 {
            let tag: u8 = tag_byte & 0x7F;
            if left < 2 {
                return map;
            }
            let idx: u8 = data[pos + 1];
            assert(rest[1] == idx);
            if let Some(value) = value_from_lookup(tag, idx) {
                if let Some(name) = tag_to_field_name(tag) {
                    map.insert(name.to_owned(), value.to_owned());
                }
            }
            assert(rest.skip(2) =~= data@.skip(pos + 2));
            pos = pos + 2;
        } else {
            if left < 3 {
                return map;
            }
            let vlen: usize = read_len(data, pos + 1);
            if left - 3 < vlen {
                return map;
            }
            let value = read_text(data, pos + 3, pos + 3 + vlen);
            assert(data@.subrange(pos + 3, pos + 3 + vlen) =~= rest.subrange(3, 3 + vlen));
            if let Some(name) = tag_to_field_name(tag_byte) {
                map.insert(name.to_owned(), value);
            }
            assert(rest.skip(3 + vlen) =~= data@.skip(pos + 3 + vlen));
            pos = pos + 3 + vlen;
        }
    }
    map
}

/// Whether metadata keeps a field of this name.
pub open spec fn kept(key: Seq<char>) -> bool {
    tag_of(key) is Some || custom_prefix().is_prefix_of(key)
}

/// The fields that metadata keeps.
pub open spec fn kept_fields(meta: Map<Seq<char>, Seq<char>>) -> Map<Seq<char>, Seq<char>> {
    meta.restrict(Set::new(|k: Seq<char>| kept(k)))
}

/// The entry of a field that is kept is read back from its bytes, whatever follows;
/// a field that is not kept has no bytes.
proof fn lemma_entry_read_back(key: Seq<char>, value: Seq<char>, rest: Seq<u8>)
    requires
        encode_field(key, value) is Ok,
    ensures
        kept(key) ==> first_entry(encode_field(key, value)->Ok_0 + rest) == Some(
            Entry { field: Some((key, value)), len: encode_field(key, value)->Ok_0.len() },
        ),
        kept(key) ==> encode_field(key, value)->Ok_0.len() > 0,
        !kept(key) ==> encode_field(key, value)->Ok_0.len() == 0,
{
    let bytes = encode_field(key, value)->Ok_0;
    let data = bytes + rest;
    let v = encode_utf8(value);
    encode_utf8_valid_utf8(value);
    encode_utf8_decode_utf8(value);
    match tag_of(key) {
        Some(tag) => {
            field_names_and_tags_are_inverse(key, tag);
            match index_of_value(tag, value) {
                Some(idx) => {
                    listed_values_and_indices_are_inverse(tag, value, idx);
                    assert(data[0] == tag + 128 && data[1] == idx);
                },
                None => {
                    assert(data[0] == tag);
                    assert(data[1] == (v.len() % 256) as u8 && data[2] == (v.len() / 256) as u8);
                    assert(u16_at(data, 1) == v.len());
                    assert(data.subrange(3, 3 + v.len() as int) =~= v);
                },
            }
        },
        None => {
            if custom_prefix().is_prefix_of(key) {
                let suffix = key.skip(custom_prefix().len() as int);
                let k = encode_utf8(suffix);
                encode_utf8_valid_utf8(suffix);
                encode_utf8_decode_utf8(suffix);
                assert(custom_prefix() + suffix =~= key);
                assert(data[0] == TAG_CUSTOM);
                assert(data[1] == (k.len() % 256) as u8 && data[2] == (k.len() / 256) as u8);
                assert(u16_at(data, 1) == k.len());
                assert(data.subrange(3, 3 + k.len() as int) =~= k);
                let p = 3 + k.len() as int;
                assert(data[p] == (v.len() % 256) as u8);
                assert(data[p + 1] == (v.len() / 256) as u8);
                assert(u16_at(data, p) == v.len());
                assert(data.subrange(p + 2, p + 2 + v.len()) =~= v);
            }
        },
    }
}

/// Decoding the entries of some fields adds those that are kept.
proof fn lemma_fields_read_back(
    keys: Seq<Seq<char>>,
    meta: Map<Seq<char>, Seq<char>>,
    onto: Map<Seq<char>, Seq<char>>,
)
    requires
        encode_fields(keys, meta) is Ok,
    ensures
        ({
            let r = decode_onto(encode_fields(keys, meta)->Ok_0, onto);
            &&& forall|k: Seq<char>| #[trigger]
                r.contains_key(k) <==> onto.contains_key(k) || (keys.contains(k) && kept(k))
            &&& forall|k: Seq<char>| #[trigger]
                r.contains_key(k) ==> r[k] == (if keys.contains(k) && kept(k) {
                    meta[k]
                } else {
                    onto[k]
                })
        }),
    decreases keys.len(),
{
    if keys.len() > 0 {
        let key = keys[0];
        let tail = keys.drop_first();
        let bytes = encode_field(key, meta[key])->Ok_0;
        let rest = encode_fields(tail, meta)->Ok_0;
        lemma_entry_read_back(key, meta[key], rest);
        assert((bytes + rest).skip(bytes.len() as int) =~= rest);
        let next = if kept(key) {
            onto.insert(key, meta[key])
        } else {
            assert(bytes + rest =~= rest);
            onto
        };
        assert(encode_fields(keys, meta)->Ok_0 == bytes + rest);
        assert(decode_onto(bytes + rest, onto) == decode_onto(rest, next));
        lemma_fields_read_back(tail, meta, next);
        assert forall|k: Seq<char>| #[trigger]
            keys.contains(k) == (k == key || tail.contains(k)) by {
            if keys.contains(k) && k != key {
                let i = choose|i: int| 0 <= i < keys.len() && keys[i] == k;
                assert(tail[i - 1] == k);
            }
            if tail.contains(k) {
                let i = choose|i: int| 0 <= i < tail.len() && tail[i] == k;
                assert(keys[i + 1] == k);
            }
            assert(keys[0] == key);
        }
    }
}

/// Decoding gives back the fields that encoding wrote: all those of the metadata
/// that are well known or custom.
pub proof fn decoding_gives_back_what_encoding_wrote(meta: Map<Seq<char>, Seq<char>>)
    requires
        meta.dom().finite(),
        encoded(meta) is Ok,
    ensures
        decoded(encoded(meta)->Ok_0) == kept_fields(meta),
{
    let keys = string_map::sorted(meta.dom());
    string_map::lemma_sorted_exists(meta.dom());
    lemma_fields_read_back(keys, meta, Map::empty());
    let r = decoded(encoded(meta)->Ok_0);
    assert forall|k: Seq<char>| keys.contains(k) == meta.contains_key(k) by {
        assert(keys.contains(k) == keys.to_set().contains(k));
    }
    assert(r =~= kept_fields(meta));
}

/// Some field of a sequence of keys is too long.
proof fn lemma_fields_too_long(keys: Seq<Seq<char>>, meta: Map<Seq<char>, Seq<char>>)
    ensures
        encode_fields(keys, meta) is Err <==> exists|i: int|
            0 <= i < keys.len() && encode_field(#[trigger] keys[i], meta[keys[i]]) is Err,
    decreases keys.len(),
{
    if keys.len() > 0 {
        let tail = keys.drop_first();
        lemma_fields_too_long(tail, meta);
        if encode_fields(keys, meta) is Err {
            if encode_field(keys[0], meta[keys[0]]) is Ok {
                let i = choose|i: int|
                    0 <= i < tail.len() && encode_field(#[trigger] tail[i], meta[tail[i]]) is Err;
                assert(keys[i + 1] == tail[i]);
            }
        }
        if exists|i: int|
            0 <= i < keys.len() && encode_field(#[trigger] keys[i], meta[keys[i]]) is Err {
            let i = choose|i: int|
                0 <= i < keys.len() && encode_field(#[trigger] keys[i], meta[keys[i]]) is Err;
            if i > 0 {
                assert(tail[i - 1] == keys[i]);
            }
        }
    }
}

/// Encoding fails if and only if the entry of some field would be too long.
pub proof fn encoding_fails_iff_a_field_is_too_long(meta: Map<Seq<char>, Seq<char>>)
    requires
        meta.dom().finite(),
    ensures
        encoded(meta) is Err <==> exists|k: Seq<char>| #[trigger]
            meta.contains_key(k) && encode_field(k, meta[k]) is Err,
{
    let keys = string_map::sorted(meta.dom());
    string_map::lemma_sorted_exists(meta.dom());
    lemma_fields_too_long(keys, meta);
    if encoded(meta) is Err {
        let i = choose|i: int|
            0 <= i < keys.len() && encode_field(#[trigger] keys[i], meta[keys[i]]) is Err;
        assert(keys.to_set().contains(keys[i]));
        assert(meta.contains_key(keys[i]));
    }
    if exists|k: Seq<char>| #[trigger] meta.contains_key(k) && encode_field(k, meta[k]) is Err {
        let k = choose|k: Seq<char>| #[trigger]
            meta.contains_key(k) && encode_field(k, meta[k]) is Err;
        assert(keys.to_set().contains(k));
        let i = choose|i: int| 0 <= i < keys.len() && keys[i] == k;
        assert(encode_field(keys[i], meta[keys[i]]) is Err);
    }
}

} // verus!
