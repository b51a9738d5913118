//! Cluster configuration files.
//!
//! All shard types (raw, fs, s3, mem) are supported. Directives that only concern
//! the daemon are ignored, so that the daemon and the command line can share one
//! file.
//!
//! ```text
//! # cluster.conf -- comments start with #
//! replicas  2
//! catalog   json:/tmp/catalog.json
//! read_prefer  round-robin
//! direct_io    true
//! compression  zstd
//! size_mb      1024
//! read_only    false
//!
//! shard  raw  /dev/nvme0n1
//! shard  raw  /dev/nvme1n1  size_mb=512  compression=none
//! shard  fs   /mnt/data
//! shard  s3   endpoint=https://s3.amazonaws.com  bucket=my-bucket  region=us-east-1
//! shard  mem
//! ```
//!
//! Global directives set defaults; options of a shard override them.

use vstd::prelude::*;
use vstd::string::*;
use crate::text;
use crate::text::{around, contains, number, parse_number, starts_with, str_eq, strip_prefix};

verus! {

/// Configuration of a single shard.
#[derive(Debug)]
pub enum ShardConf {
    /// Local raw block device or loopback image.
    Raw {
        path: String,
        read_only: bool,
        compression: Option<String>,
        direct_io: Option<bool>,
        size_mb: Option<u64>,
    },
    /// Local filesystem directory.
    Fs { root: String, read_only: bool },
    /// S3-compatible endpoint.
    S3 {
        endpoint: String,
        bucket: String,
        region: Option<String>,
        access_key: Option<String>,
        secret_key: Option<String>,
        path_style: bool,
    },
    /// In-memory store.
    Mem,
    /// A child node, by name (tree configurations only).
    Node(String),
}

/// What a shard configuration says.
pub enum ShardSpec {
    Raw {
        path: Seq<char>,
        read_only: bool,
        compression: Option<Seq<char>>,
        direct_io: Option<bool>,
        size_mb: Option<u64>,
    },
    Fs { root: Seq<char>, read_only: bool },
    S3 {
        endpoint: Seq<char>,
        bucket: Seq<char>,
        region: Option<Seq<char>>,
        access_key: Option<Seq<char>>,
        secret_key: Option<Seq<char>>,
        path_style: bool,
    },
    Mem,
    Node(Seq<char>),
}

impl View for ShardConf {
    type V = ShardSpec;

    open spec fn view(&self) -> ShardSpec {
        match *self {
            ShardConf::Raw { path, read_only, compression, direct_io, size_mb } => ShardSpec::Raw {
                path: path@,
                read_only,
                compression: text::opt_view(compression),
                direct_io,
                size_mb,
            },
            ShardConf::Fs { root, read_only } => ShardSpec::Fs { root: root@, read_only },
            ShardConf::S3 { endpoint, bucket, region, access_key, secret_key, path_style } => ShardSpec::S3 {
                endpoint: endpoint@,
                bucket: bucket@,
                region: text::opt_view(region),
                access_key: text::opt_view(access_key),
                secret_key: text::opt_view(secret_key),
                path_style,
            },
            ShardConf::Mem => ShardSpec::Mem,
            ShardConf::Node(name) => ShardSpec::Node(name@),
        }
    }
}

fn copy_option(s: &Option<String>) -> (r: Option<String>)
    ensures
        text::opt_view(r) == text::opt_view(*s),
{
    match s {
        Some(t) => Some(t.clone()),
        None => None,
    }
}

impl Clone for ShardConf {
    fn clone(&self) -> (r: Self)
        ensures
            r@ == self@,
    {
        match self {
            ShardConf::Raw { path, read_only, compression, direct_io, size_mb } => ShardConf::Raw {
                path: path.clone(),
                read_only: *read_only,
                compression: copy_option(compression),
                direct_io: *direct_io,
                size_mb: *size_mb,
            },
            ShardConf::Fs { root, read_only } => ShardConf::Fs {
                root: root.clone(),
                read_only: *read_only,
            },
            ShardConf::S3 { endpoint, bucket, region, access_key, secret_key, path_style } => ShardConf::S3 {
                endpoint: endpoint.clone(),
                bucket: bucket.clone(),
                region: copy_option(region),
                access_key: copy_option(access_key),
                secret_key: copy_option(secret_key),
                path_style: *path_style,
            },
            ShardConf::Mem => ShardConf::Mem,
            ShardConf::Node(name) => ShardConf::Node(name.clone()),
        }
    }
}

impl ShardConf {
    /// Name of the shard type.
    pub fn kind_name(&self) -> (r: &'static str)
        ensures
            r@ == (match self@ {
                ShardSpec::Raw { .. } => "raw"@,
                ShardSpec::Fs { .. } => "fs"@,
                ShardSpec::S3 { .. } => "s3"@,
                ShardSpec::Mem => "mem"@,
                ShardSpec::Node(_) => "node"@,
            }),
    {
        match self {
            ShardConf::Raw { .. } => "raw",
            ShardConf::Fs { .. } => "fs",
            ShardConf::S3 { .. } => "s3",
            ShardConf::Mem => "mem",
            ShardConf::Node(_) => "node",
        }
    }
}

/// What the shard configurations of a list say.
pub open spec fn shard_specs(shards: Seq<ShardConf>) -> Seq<ShardSpec> {
    Seq::new(shards.len(), |i: int| shards[i]@)
}

// -- Error messages ---------------------------------------------------------

/// A message about a line.
pub open spec fn at_line(line: nat, message: Seq<char>) -> Seq<char> {
    "line "@ + text::decimal(line) + ": "@ + message
}

/// A message about a node.
pub open spec fn at_node(name: Seq<char>, message: Seq<char>) -> Seq<char> {
    "node '"@ + name + "': "@ + message
}

fn line_error(line: usize, message: &str) -> (s: String)
    ensures
        s@ == at_line(line as nat, message@),
{
    let mut s = "line ".to_owned();
    s.append(number(line as u64).as_str());
    s.append(": ");
    s.append(message);
    s
}

fn node_error(name: &str, message: &str) -> (s: String)
    ensures
        s@ == at_node(name@, message@),
{
    let mut s = "node '".to_owned();
    s.append(name);
    s.append("': ");
    s.append(message);
    s
}

// -- Tokens -----------------------------------------------------------------

/// Progress of splitting a line into tokens.
pub struct Scan {
    pub tokens: Seq<Seq<char>>,
    pub current: Seq<char>,
    pub quote: Option<char>,
}

/// Reading one more character. Outside quotes white space ends a token, and a
/// single or double quote opens a quoted part; inside, only the same quote counts.
/// Quotes do not end a token and do not belong to it.
pub open spec fn scan_char(scan: Scan, c: char) -> Scan {
    match scan.quote {
        Some(q) => if c == q {
            Scan { quote: None, ..scan }
        } else {
            Scan { current: scan.current.push(c), ..scan }
        },
        None => if c == '"' || c == '\'' {
            Scan { quote: Some(c), ..scan }
        } else if text::is_white_space(c) {
            end_token(scan)
        } else {
            Scan { current: scan.current.push(c), ..scan }
        },
    }
}

/// Ending the current token, if it has any character.
pub open spec fn end_token(scan: Scan) -> Scan {
    if scan.current.len() > 0 {
        Scan { tokens: scan.tokens.push(scan.current), current: Seq::empty(), quote: scan.quote }
    } else {
        scan
    }
}

/// Reading a whole line.
pub open spec fn scan_line(line: Seq<char>) -> Scan {
    line.fold_left(
        Scan { tokens: Seq::empty(), current: Seq::empty(), quote: None },
        |scan: Scan, c: char| scan_char(scan, c),
    )
}

/// The tokens of a line, unless a quote is left open.
pub open spec fn tokens_of(line: Seq<char>) -> Option<Seq<Seq<char>>> {
    let scan = scan_line(line);
    if scan.quote is Some {
        None
    } else {
        Some(end_token(scan).tokens)
    }
}

/// The message about a quote that is left open.
pub open spec fn open_quote(line: Seq<char>) -> Seq<char> {
    "unterminated quote in: "@ + line
}

/// Splits a line into tokens at white space, outside quotes.
pub fn tokenize(line: &str) -> (r: Result<Vec<String>, String>)
    ensures
        match r {
            Ok(tokens) => tokens_of(line@) == Some(text::views(tokens@)),
            Err(e) => tokens_of(line@) is None && e@ == open_quote(line@),
        },
{
    let chars = text::chars_of(line);
    let mut tokens: Vec<String> = Vec::new();
    let mut current = String::new();
    let mut quote: Option<char> = None;
    let mut i: usize = 0;
    assert(text::views(tokens@) =~= Seq::<Seq<char>>::empty());
    assert(chars@.take(0) =~= Seq::<char>::empty());
    while i < chars.len()
        invariant
            i <= chars.len(),
            scan_line(chars@.take(i as int)) == (Scan {
                tokens: text::views(tokens@),
                current: current@,
                quote,
            }),
        decreases chars.len() - i,
    {
        let c = chars[i];
        let ghost before = tokens@;
        proof {
            let next = chars@.take(i + 1);
            assert(next.drop_last() =~= chars@.take(i as int));
            assert(next.last() == c);
        }
        match quote {
            Some(q) => {
                if c == q {
                    quote = None;
                } else {
                    current.push(c);
                }
            },
            None => {
                if c == '"' || c == '\'' {
                    quote = Some(c);
                } else if text::white_space(c) {
                    if !current.as_str().is_empty() {
                        tokens.push(current);
                        current = String::new();
                        assert(text::views(tokens@) =~= text::views(before).push(
                            scan_line(chars@.take(i as int)).current,
                        ));
                    }
                } else {
                    current.push(c);
                }
            },
        }
        i = i + 1;
    }
    assert(chars@.take(i as int) =~= chars@);
    if quote.is_some() {
        let mut e = "unterminated quote in: ".to_owned();
        e.append(line);
        return Err(e);
    }
    let ghost before = tokens@;
    let ghost last = current@;
    if !current.as_str().is_empty() {
        tokens.push(current);
        assert(text::views(tokens@) =~= text::views(before).push(last));
    }
    Ok(tokens)
}

// -- Shards -----------------------------------------------------------------

/// The words that make a shard read-only.
pub open spec fn is_read_only_word(token: Seq<char>) -> bool {
    token == "readonly"@ || token == "read_only"@ || token == "read-only"@
}

/// The values that mean "yes".
pub open spec fn is_yes(value: Seq<char>) -> bool {
    value == "true"@ || value == "1"@
}

fn read_only_word(token: &str) -> (r: bool)
    ensures
        r == is_read_only_word(token@),
{
    str_eq(token, "readonly") || str_eq(token, "read_only") || str_eq(token, "read-only")
}

fn yes(value: &str) -> (r: bool)
    ensures
        r == is_yes(value@),
{
    str_eq(value, "true") || str_eq(value, "1")
}

/// The part after the first of two prefixes that matches.
pub open spec fn after_either(s: Seq<char>, a: Seq<char>, b: Seq<char>) -> Option<Seq<char>> {
    match text::after_prefix(s, a) {
        Some(rest) => Some(rest),
        None => text::after_prefix(s, b),
    }
}

fn strip_either<'a>(s: &'a str, a: &str, b: &str) -> (r: Option<&'a str>)
    ensures
        match r {
            Some(rest) => after_either(s@, a@, b@) == Some(rest@),
            None => after_either(s@, a@, b@) is None,
        },
{
    match strip_prefix(s, a) {
        Some(rest) => Some(rest),
        None => strip_prefix(s, b),
    }
}

/// A token without the name of the key that it may be written with.
pub open spec fn bare(token: Seq<char>, prefix: Seq<char>) -> Seq<char> {
    match text::after_prefix(token, prefix) {
        Some(rest) => rest,
        None => token,
    }
}

fn strip_optional(token: &str, prefix: &str) -> (r: String)
    ensures
        r@ == bare(token@, prefix@),
{
    match strip_prefix(token, prefix) {
        Some(rest) => rest.to_owned(),
        None => token.to_owned(),
    }
}

/// Options of a raw shard.
pub struct RawOptions {
    pub read_only: bool,
    pub compression: Option<Seq<char>>,
    pub direct_io: Option<bool>,
    pub size_mb: Option<u64>,
}

/// A number of type `u64`.
pub open spec fn u64_of(s: Seq<char>) -> Option<u64> {
    match text::parsed_number(s, u64::MAX as nat) {
        Some(n) => Some(n as u64),
        None => None,
    }
}

/// A number of type `usize`.
pub open spec fn usize_of(s: Seq<char>) -> Option<usize> {
    match text::parsed_number(s, usize::MAX as nat) {
        Some(n) => Some(n as usize),
        None => None,
    }
}

pub(crate) fn parse_u64(s: &str) -> (r: Option<u64>)
    ensures
        r == u64_of(s@),
{
    parse_number(s, u64::MAX)
}

pub(crate) fn parse_usize(s: &str) -> (r: Option<usize>)
    ensures
        r == usize_of(s@),
{
    match parse_number(s, usize::MAX as u64) {
        Some(n) => Some(n as usize),
        None => None,
    }
}

/// One option of a raw shard.
pub open spec fn raw_option(o: RawOptions, token: Seq<char>, line: nat) -> Result<
    RawOptions,
    Seq<char>,
> {
    if is_read_only_word(token) {
        Ok(RawOptions { read_only: true, ..o })
    } else if token == "direct_io"@ || token == "direct-io"@ {
        Ok(RawOptions { direct_io: Some(true), ..o })
    } else if let Some(value) = text::after_prefix(token, "compression="@) {
        Ok(RawOptions { compression: Some(value), ..o })
    } else if let Some(value) = after_either(token, "size_mb="@, "size-mb="@) {
        match u64_of(value) {
            Some(n) => Ok(RawOptions { size_mb: Some(n), ..o }),
            None => Err(at_line(line, "invalid size_mb '"@ + value + "'"@)),
        }
    } else if let Some(value) = after_either(token, "direct_io="@, "direct-io="@) {
        Ok(RawOptions { direct_io: Some(is_yes(value)), ..o })
    } else {
        Err(at_line(line, "unknown raw shard option '"@ + token + "'"@))
    }
}

/// The options of a raw shard, one after the other.
pub open spec fn raw_options(o: RawOptions, tokens: Seq<Seq<char>>, line: nat) -> Result<
    RawOptions,
    Seq<char>,
>
    decreases tokens.len(),
{
    if tokens.len() == 0 {
        Ok(o)
    } else {
        match raw_option(o, tokens[0], line) {
            Ok(o) => raw_options(o, tokens.drop_first(), line),
            Err(e) => Err(e),
        }
    }
}

/// A raw shard: a path, bare or as `path=`, and options.
pub open spec fn raw_shard(tokens: Seq<Seq<char>>, line: nat) -> Result<ShardSpec, Seq<char>> {
    let start = RawOptions {
        read_only: false,
        compression: None,
        direct_io: None,
        size_mb: None,
    };
    if tokens.len() == 0 {
        Err(at_line(line, "raw shard missing path"@))
    } else {
        match raw_options(start, tokens.drop_first(), line) {
            Ok(o) => Ok(
                ShardSpec::Raw {
                    path: bare(tokens[0], "path="@),
                    read_only: o.read_only,
                    compression: o.compression,
                    direct_io: o.direct_io,
                    size_mb: o.size_mb,
                },
            ),
            Err(e) => Err(e),
        }
    }
}

/// What a parser returned, in the terms of the grammar.
pub open spec fn shard_result(r: Result<ShardConf, String>) -> Result<ShardSpec, Seq<char>> {
    match r {
        Ok(c) => Ok(c@),
        Err(e) => Err(e@),
    }
}

/// A raw shard from the tokens at `from` and after.
fn parse_raw_shard(tokens: &Vec<String>, from: usize, line: usize) -> (r: Result<ShardConf, String>)
    requires
        from <= tokens.len(),
    ensures
        shard_result(r) == raw_shard(text::views(tokens@).skip(from as int), line as nat),
{
    let ghost all = text::views(tokens@).skip(from as int);
    if from == tokens.len() {
        return Err(line_error(line, "raw shard missing path"));
    }
    let path = strip_optional(tokens[from].as_str(), "path=");
    let mut read_only = false;
    let mut compression: Option<String> = None;
    let mut direct_io: Option<bool> = None;
    let mut size_mb: Option<u64> = None;
    let ghost start = RawOptions {
        read_only: false,
        compression: None,
        direct_io: None,
        size_mb: None,
    };
    let mut i: usize = from + 1;
    assert(all.drop_first() =~= text::views(tokens@).skip(i as int));
    while i < tokens.len()
        invariant
            from < i <= tokens.len(),
            raw_options(
                RawOptions {
                    read_only,
                    compression: text::opt_view(compression),
                    direct_io,
                    size_mb,
                },
                text::views(tokens@).skip(i as int),
                line as nat,
            ) == raw_options(start, all.drop_first(), line as nat),
            all == text::views(tokens@).skip(from as int),
            start == (RawOptions {
                read_only: false,
                compression: None,
                direct_io: None,
                size_mb: None,
            }),
        decreases tokens.len() - i,
    {
        let tok = tokens[i].as_str();
        proof {
            let rest = text::views(tokens@).skip(i as int);
            assert(rest[0] == tok@);
            assert(rest.drop_first() =~= text::views(tokens@).skip(i + 1));
        }
        if read_only_word(tok) {
            read_only = true;
        } else if str_eq(tok, "direct_io") || str_eq(tok, "direct-io") {
            direct_io = Some(true);
        } else if let Some(val) = strip_prefix(tok, "compression=") {
            compression = Some(val.to_owned());
        } else if let Some(val) = strip_either(tok, "size_mb=", "size-mb=") {
            match parse_u64(val) {
                Some(n) => {
                    size_mb = Some(n);
                },
                None => {
                    return Err(line_error(line, around("invalid size_mb '", val, "'").as_str()));
                },
            }
        } else if let Some(val) = strip_either(tok, "direct_io=", "direct-io=") {
            direct_io = Some(yes(val));
        } else {
            return Err(line_error(line, around("unknown raw shard option '", tok, "'").as_str()));
        }
        i = i + 1;
    }
    assert(text::views(tokens@).skip(i as int) =~= Seq::<Seq<char>>::empty());
    Ok(ShardConf::Raw { path, read_only, compression, direct_io, size_mb })
}

/// Whether the options of an fs shard make it read-only.
pub open spec fn fs_options(read_only: bool, tokens: Seq<Seq<char>>, line: nat) -> Result<
    bool,
    Seq<char>,
>
    decreases tokens.len(),
{
    if tokens.len() == 0 {
        Ok(read_only)
    } else if is_read_only_word(tokens[0]) {
        fs_options(true, tokens.drop_first(), line)
    } else {
        Err(at_line(line, "unknown fs shard option '"@ + tokens[0] + "'"@))
    }
}

/// A filesystem shard: a directory, bare or as `root=`, and options.
pub open spec fn fs_shard(tokens: Seq<Seq<char>>, line: nat) -> Result<ShardSpec, Seq<char>> {
    if tokens.len() == 0 {
        Err(at_line(line, "fs shard missing root path"@))
    } else {
        match fs_options(false, tokens.drop_first(), line) {
            Ok(read_only) => Ok(ShardSpec::Fs { root: bare(tokens[0], "root="@), read_only }),
            Err(e) => Err(e),
        }
    }
}

/// A filesystem shard from the tokens at `from` and after.
fn parse_fs_shard(tokens: &Vec<String>, from: usize, line: usize) -> (r: Result<ShardConf, String>)
    requires
        from <= tokens.len(),
    ensures
        shard_result(r) == fs_shard(text::views(tokens@).skip(from as int), line as nat),
{
    let ghost all = text::views(tokens@).skip(from as int);
    if from == tokens.len() {
        return Err(line_error(line, "fs shard missing root path"));
    }
    let root = strip_optional(tokens[from].as_str(), "root=");
    let mut read_only = false;
    let mut i: usize = from + 1;
    assert(all.drop_first() =~= text::views(tokens@).skip(i as int));
    while i < tokens.len()
        invariant
            from < i <= tokens.len(),
            all == text::views(tokens@).skip(from as int),
            fs_options(read_only, text::views(tokens@).skip(i as int), line as nat) == fs_options(
                false,
                all.drop_first(),
                line as nat,
            ),
        decreases tokens.len() - i,
    {
        let tok = tokens[i].as_str();
        proof {
            let rest = text::views(tokens@).skip(i as int);
            assert(rest[0] == tok@);
            assert(rest.drop_first() =~= text::views(tokens@).skip(i + 1));
        }
        if read_only_word(tok) {
            read_only = true;
        } else {
            return Err(line_error(line, around("unknown fs shard option '", tok, "'").as_str()));
        }
        i = i + 1;
    }
    assert(text::views(tokens@).skip(i as int) =~= Seq::<Seq<char>>::empty());
    Ok(ShardConf::Fs { root, read_only })
}

/// Options of an s3 shard.
pub struct S3Options {
    pub endpoint: Seq<char>,
    pub bucket: Seq<char>,
    pub region: Option<Seq<char>>,
    pub access_key: Option<Seq<char>>,
    pub secret_key: Option<Seq<char>>,
    pub path_style: bool,
}

/// One option of an s3 shard.
pub open spec fn s3_option(o: S3Options, token: Seq<char>, line: nat) -> Result<
    S3Options,
    Seq<char>,
> {
    if let Some(value) = text::after_prefix(token, "endpoint="@) {
        Ok(S3Options { endpoint: value, ..o })
    } else if let Some(value) = text::after_prefix(token, "bucket="@) {
        Ok(S3Options { bucket: value, ..o })
    } else if let Some(value) = text::after_prefix(token, "region="@) {
        Ok(S3Options { region: Some(value), ..o })
    } else if let Some(value) = text::after_prefix(token, "access_key="@) {
        Ok(S3Options { access_key: Some(value), ..o })
    } else if let Some(value) = text::after_prefix(token, "secret_key="@) {
        Ok(S3Options { secret_key: Some(value), ..o })
    } else if token == "path_style"@ || token == "path_style=true"@ {
        Ok(S3Options { path_style: true, ..o })
    } else {
        Err(at_line(line, "unknown s3 shard option '"@ + token + "'"@))
    }
}

/// The options of an s3 shard, one after the other.
pub open spec fn s3_options(o: S3Options, tokens: Seq<Seq<char>>, line: nat) -> Result<
    S3Options,
    Seq<char>,
>
    decreases tokens.len(),
{
    if tokens.len() == 0 {
        Ok(o)
    } else {
        match s3_option(o, tokens[0], line) {
            Ok(o) => s3_options(o, tokens.drop_first(), line),
            Err(e) => Err(e),
        }
    }
}

/// No option of an s3 shard.
pub open spec fn no_s3_options() -> S3Options {
    S3Options {
        endpoint: Seq::empty(),
        bucket: Seq::empty(),
        region: None,
        access_key: None,
        secret_key: None,
        path_style: false,
    }
}

/// An s3 shard: options, among them an endpoint and a bucket.
pub open spec fn s3_shard(tokens: Seq<Seq<char>>, line: nat) -> Result<ShardSpec, Seq<char>> {
    match s3_options(no_s3_options(), tokens, line) {
        Err(e) => Err(e),
        Ok(o) => if o.endpoint.len() == 0 {
            Err(at_line(line, "s3 shard missing endpoint="@))
        } else if o.bucket.len() == 0 {
            Err(at_line(line, "s3 shard missing bucket="@))
        } else {
            Ok(
                ShardSpec::S3 {
                    endpoint: o.endpoint,
                    bucket: o.bucket,
                    region: o.region,
                    access_key: o.access_key,
                    secret_key: o.secret_key,
                    path_style: o.path_style,
                },
            )
        },
    }
}

/// An s3 shard from the tokens at `from` and after.
fn parse_s3_shard(tokens: &Vec<String>, from: usize, line: usize) -> (r: Result<ShardConf, String>)
    requires
        from <= tokens.len(),
    ensures
        shard_result(r) == s3_shard(text::views(tokens@).skip(from as int), line as nat),
{
    let ghost all = text::views(tokens@).skip(from as int);
    let mut endpoint = String::new();
    let mut bucket = String::new();
    let mut region: Option<String> = None;
    let mut access_key: Option<String> = None;
    let mut secret_key: Option<String> = None;
    let mut path_style = false;
    let mut i: usize = from;
    while i < tokens.len()
        invariant
            from <= i <= tokens.len(),
            all == text::views(tokens@).skip(from as int),
            s3_options(
                S3Options {
                    endpoint: endpoint@,
                    bucket: bucket@,
                    region: text::opt_view(region),
                    access_key: text::opt_view(access_key),
                    secret_key: text::opt_view(secret_key),
                    path_style,
                },
                text::views(tokens@).skip(i as int),
                line as nat,
            ) == s3_options(no_s3_options(), all, line as nat),
        decreases tokens.len() - i,
    {
        let tok = tokens[i].as_str();
        proof {
            let rest = text::views(tokens@).skip(i as int);
            assert(rest[0] == tok@);
            assert(rest.drop_first() =~= text::views(tokens@).skip(i + 1));
        }
        if let Some(val) = strip_prefix(tok, "endpoint=") {
            endpoint = val.to_owned();
        } else if let Some(val) = strip_prefix(tok, "bucket=") {
            bucket = val.to_owned();
        } else if let Some(val) = strip_prefix(tok, "region=") {
            region = Some(val.to_owned());
        } else if let Some(val) = strip_prefix(tok, "access_key=") {
            access_key = Some(val.to_owned());
        } else if let Some(val) = strip_prefix(tok, "secret_key=") {
            secret_key = Some(val.to_owned());
        } else if str_eq(tok, "path_style") || str_eq(tok, "path_style=true") {
            path_style = true;
        } else {
            return Err(line_error(line, around("unknown s3 shard option '", tok, "'").as_str()));
        }
        i = i + 1;
    }
    assert(text::views(tokens@).skip(i as int) =~= Seq::<Seq<char>>::empty());
    if endpoint.as_str().is_empty() {
        return Err(line_error(line, "s3 shard missing endpoint="));
    }
    if bucket.as_str().is_empty() {
        return Err(line_error(line, "s3 shard missing bucket="));
    }
    Ok(ShardConf::S3 { endpoint, bucket, region, access_key, secret_key, path_style })
}

/// The tokens of a `shard` line after that word: a type and its options, or a bare
/// path for a raw shard.
pub open spec fn shard_tokens(tokens: Seq<Seq<char>>, line: nat) -> Result<ShardSpec, Seq<char>> {
    if tokens.len() == 0 {
        Err(at_line(line, "shard line has no type or path"@))
    } else if tokens[0] == "raw"@ {
        raw_shard(tokens.drop_first(), line)
    } else if tokens[0] == "fs"@ {
        fs_shard(tokens.drop_first(), line)
    } else if tokens[0] == "s3"@ {
        s3_shard(tokens.drop_first(), line)
    } else if tokens[0] == "mem"@ {
        Ok(ShardSpec::Mem)
    } else {
        raw_shard(tokens, line)
    }
}

/// A shard from the tokens at `from` and after.
fn parse_shard_tokens(tokens: &Vec<String>, from: usize, line: usize) -> (r: Result<
    ShardConf,
    String,
>)
    requires
        from <= tokens.len(),
    ensures
        shard_result(r) == shard_tokens(text::views(tokens@).skip(from as int), line as nat),
{
    let ghost all = text::views(tokens@).skip(from as int);
    if from == tokens.len() {
        return Err(line_error(line, "shard line has no type or path"));
    }
    assert(all.drop_first() =~= text::views(tokens@).skip(from + 1));
    let kind = tokens[from].as_str();
    if str_eq(kind, "raw") {
        parse_raw_shard(tokens, from + 1, line)
    } else if str_eq(kind, "fs") {
        parse_fs_shard(tokens, from + 1, line)
    } else if str_eq(kind, "s3") {
        parse_s3_shard(tokens, from + 1, line)
    } else if str_eq(kind, "mem") {
        Ok(ShardConf::Mem)
    } else {
        parse_raw_shard(tokens, from, line)
    }
}

// -- Flat configuration -----------------------------------------------------

/// Cluster configuration of a flat file.
#[derive(Debug)]
pub struct ClusterConf {
    /// Replication factor (default 1).
    pub replicas: usize,
    /// Successful writes that a put needs; the default is `max(replicas - 1, 1)`.
    pub min_writes: Option<usize>,
    /// Catalog persistence: `none`, `json:<path>`, `bincode:<path>` or a bare path.
    pub catalog: Option<String>,
    /// Read preference: `round-robin` or `ordered`.
    pub read_prefer: Option<String>,
    /// Default: open raw shards with O_DIRECT.
    pub direct_io: bool,
    /// Default: compression of new raw images.
    pub compression: Option<String>,
    /// Default: size of new raw images, in MB.
    pub size_mb: Option<u64>,
    /// Default: open raw and fs shards read-only.
    pub read_only: bool,
    /// Whether deletes need `min_writes` successes too (default no).
    pub delete_requires_min_writes: bool,
    /// The shards, in order.
    pub shards: Vec<ShardConf>,
}

/// What a flat configuration says.
pub struct ClusterSpec {
    pub replicas: usize,
    pub min_writes: Option<usize>,
    pub catalog: Option<Seq<char>>,
    pub read_prefer: Option<Seq<char>>,
    pub direct_io: bool,
    pub compression: Option<Seq<char>>,
    pub size_mb: Option<u64>,
    pub read_only: bool,
    pub delete_requires_min_writes: bool,
    pub shards: Seq<ShardSpec>,
}

impl View for ClusterConf {
    type V = ClusterSpec;

    open spec fn view(&self) -> ClusterSpec {
        ClusterSpec {
            replicas: self.replicas,
            min_writes: self.min_writes,
            catalog: text::opt_view(self.catalog),
            read_prefer: text::opt_view(self.read_prefer),
            direct_io: self.direct_io,
            compression: text::opt_view(self.compression),
            size_mb: self.size_mb,
            read_only: self.read_only,
            delete_requires_min_writes: self.delete_requires_min_writes,
            shards: shard_specs(self.shards@),
        }
    }
}

/// The configuration of an empty file, before any check.
pub open spec fn empty_cluster() -> ClusterSpec {
    ClusterSpec {
        replicas: 1,
        min_writes: None,
        catalog: None,
        read_prefer: None,
        direct_io: false,
        compression: None,
        size_mb: None,
        read_only: false,
        delete_requires_min_writes: false,
        shards: Seq::empty(),
    }
}

/// Whether a line is blank or a comment, given without surrounding white space.
pub open spec fn is_ignored(line: Seq<char>) -> bool {
    line.len() == 0 || line[0] == '#'
}

fn ignored(line: &str) -> (r: bool)
    ensures
        r == is_ignored(line@),
{
    line.is_empty() || line.get_char(0) == '#'
}

/// Directives that only concern the daemon, in both kinds of file.
pub open spec fn is_daemon_word(key: Seq<char>) -> bool {
    ||| key == "bucket"@
    ||| key == "flush_interval"@
    ||| key == "admin_token"@
    ||| key == "access_key"@
    ||| key == "secret_key"@
    ||| key == "cors_origin"@
    ||| key == "log_file"@
    ||| key == "log_buffer_size"@
    ||| key == "event_socket"@
    ||| key == "event_secret"@
    ||| key == "max_readers"@
    ||| key == "event_source"@
    ||| key == "catalog_path"@
    ||| key == "catalog_format"@
    ||| key == "catalog_flush_interval"@
    ||| "recovery_"@.is_prefix_of(key)
    ||| "repair_replication_"@.is_prefix_of(key)
}

fn daemon_word(key: &str) -> (r: bool)
    ensures
        r == is_daemon_word(key@),
{
    str_eq(key, "bucket") || str_eq(key, "flush_interval") || str_eq(key, "admin_token") || str_eq(
        key,
        "access_key",
    ) || str_eq(key, "secret_key") || str_eq(key, "cors_origin") || str_eq(key, "log_file")
        || str_eq(key, "log_buffer_size") || str_eq(key, "event_socket") || str_eq(
        key,
        "event_secret",
    ) || str_eq(key, "max_readers") || str_eq(key, "event_source") || str_eq(key, "catalog_path")
        || str_eq(key, "catalog_format") || str_eq(key, "catalog_flush_interval") || starts_with(
        key,
        "recovery_",
    ) || starts_with(key, "repair_replication_")
}

/// The value of a directive that needs one.
pub open spec fn required(tokens: Seq<Seq<char>>, key: Seq<char>, line: nat) -> Result<
    Seq<char>,
    Seq<char>,
> {
    if tokens.len() > 1 {
        Ok(tokens[1])
    } else {
        Err(at_line(line, "'"@ + key + "' requires a value"@))
    }
}

fn require_value<'a>(tokens: &'a Vec<String>, key: &str, line: usize) -> (r: Result<
    &'a str,
    String,
>)
    ensures
        match r {
            Ok(v) => required(text::views(tokens@), key@, line as nat) == Ok::<
                Seq<char>,
                Seq<char>,
            >(v@),
            Err(e) => required(text::views(tokens@), key@, line as nat) == Err::<
                Seq<char>,
                Seq<char>,
            >(e@),
        },
{
    if tokens.len() > 1 {
        Ok(tokens[1].as_str())
    } else {
        Err(line_error(line, around("'", key, "' requires a value").as_str()))
    }
}

/// The value of a switch: on if it stands alone.
pub open spec fn switch(tokens: Seq<Seq<char>>) -> bool {
    tokens.len() > 1 ==> is_yes(tokens[1])
}

fn parse_switch(tokens: &Vec<String>) -> (r: bool)
    ensures
        r == switch(text::views(tokens@)),
{
    if tokens.len() > 1 {
        yes(tokens[1].as_str())
    } else {
        true
    }
}

/// A positive number as the value of a directive.
pub open spec fn positive(tokens: Seq<Seq<char>>, key: Seq<char>, line: nat) -> Result<
    usize,
    Seq<char>,
> {
    match required(tokens, key, line) {
        Err(e) => Err(e),
        Ok(value) => match usize_of(value) {
            None => Err(at_line(line, "invalid "@ + key + " '"@ + value + "'"@)),
            Some(n) => if n == 0 {
                Err(at_line(line, key + " must be >= 1"@))
            } else {
                Ok(n)
            },
        },
    }
}

fn parse_positive(tokens: &Vec<String>, key: &str, line: usize) -> (r: Result<usize, String>)
    ensures
        match r {
            Ok(n) => positive(text::views(tokens@), key@, line as nat) == Ok::<usize, Seq<char>>(n),
            Err(e) => positive(text::views(tokens@), key@, line as nat) == Err::<usize, Seq<char>>(
                e@,
            ),
        },
{
    let value = require_value(tokens, key, line)?;
    match parse_usize(value) {
        None => {
            let mut m = "invalid ".to_owned();
            m.append(key);
            m.append(" '");
            m.append(value);
            m.append("'");
            Err(line_error(line, m.as_str()))
        },
        Some(n) => {
            if n == 0 {
                let mut m = key.to_owned();
                m.append(" must be >= 1");
                Err(line_error(line, m.as_str()))
            } else {
                Ok(n)
            }
        },
    }
}

/// The message about a directive that is not known.
pub open spec fn unknown_directive(key: Seq<char>, line: nat) -> Seq<char> {
    at_line(
        line,
        "unknown directive '"@ + key
            + "' (expected replicas, min_writes, catalog, read_prefer, direct_io, compression, size_mb, read_only, or shard)"@,
    )
}

/// The message about a read preference that is not known.
pub open spec fn unknown_read_prefer(value: Seq<char>) -> Seq<char> {
    "unknown read_prefer '"@ + value + "' (expected round-robin or ordered)"@
}

/// The read preferences.
pub open spec fn is_read_prefer(value: Seq<char>) -> bool {
    value == "round-robin"@ || value == "ordered"@
}

fn read_prefer_known(value: &str) -> (r: bool)
    ensures
        r == is_read_prefer(value@),
{
    str_eq(value, "round-robin") || str_eq(value, "ordered")
}

/// The effect of one directive. `line` is the text of the line.
pub open spec fn directive(
    conf: ClusterSpec,
    tokens: Seq<Seq<char>>,
    line: Seq<char>,
    n: nat,
) -> Result<ClusterSpec, Seq<char>> {
    let key = tokens[0];
    if key == "replicas"@ {
        match positive(tokens, key, n) {
            Ok(v) => Ok(ClusterSpec { replicas: v, ..conf }),
            Err(e) => Err(e),
        }
    } else if key == "min_writes"@ {
        match positive(tokens, key, n) {
            Ok(v) => Ok(ClusterSpec { min_writes: Some(v), ..conf }),
            Err(e) => Err(e),
        }
    } else if key == "catalog"@ {
        match required(tokens, key, n) {
            Ok(v) => Ok(ClusterSpec { catalog: Some(v), ..conf }),
            Err(e) => Err(e),
        }
    } else if key == "read_prefer"@ {
        match required(tokens, key, n) {
            Ok(v) => if is_read_prefer(v) {
                Ok(ClusterSpec { read_prefer: Some(v), ..conf })
            } else {
                Err(at_line(n, unknown_read_prefer(v)))
            },
            Err(e) => Err(e),
        }
    } else if key == "direct_io"@ {
        Ok(ClusterSpec { direct_io: switch(tokens), ..conf })
    } else if key == "compression"@ {
        match required(tokens, key, n) {
            Ok(v) => Ok(ClusterSpec { compression: Some(v), ..conf }),
            Err(e) => Err(e),
        }
    } else if key == "size_mb"@ {
        match required(tokens, key, n) {
            Ok(v) => match u64_of(v) {
                Some(size) => Ok(ClusterSpec { size_mb: Some(size), ..conf }),
                None => Err(at_line(n, "invalid size_mb '"@ + v + "'"@)),
            },
            Err(e) => Err(e),
        }
    } else if key == "read_only"@ {
        Ok(ClusterSpec { read_only: switch(tokens), ..conf })
    } else if key == "delete_requires_min_writes"@ {
        Ok(ClusterSpec { delete_requires_min_writes: switch(tokens), ..conf })
    } else if key == "shard"@ {
        match shard_tokens(tokens.drop_first(), n) {
            Ok(shard) => Ok(ClusterSpec { shards: conf.shards.push(shard), ..conf }),
            Err(e) => Err(e),
        }
    } else if key == "cluster"@ || is_daemon_word(key) || text::has_substring(line, "rf="@) {
        Ok(conf)
    } else {
        Err(unknown_directive(key, n))
    }
}

/// The effect of one line of a flat file. Blank, comment and indented lines have
/// none.
pub open spec fn flat_line(conf: ClusterSpec, raw: Seq<char>, n: nat) -> Result<
    ClusterSpec,
    Seq<char>,
> {
    let line = text::trimmed(raw);
    if is_ignored(line) || text::indentation(raw) > 0 {
        Ok(conf)
    } else {
        match tokens_of(line) {
            None => Err(at_line(n, open_quote(line))),
            Some(tokens) => if tokens.len() == 0 {
                Ok(conf)
            } else {
                directive(conf, tokens, line, n)
            },
        }
    }
}

/// The effect of the lines of a flat file, the first of which has number `n + 1`.
pub open spec fn flat_lines(conf: ClusterSpec, lines: Seq<Seq<char>>, n: nat) -> Result<
    ClusterSpec,
    Seq<char>,
>
    decreases lines.len(),
{
    if lines.len() == 0 {
        Ok(conf)
    } else {
        match flat_line(conf, lines[0], n + 1) {
            Ok(conf) => flat_lines(conf, lines.drop_first(), n + 1),
            Err(e) => Err(e),
        }
    }
}

/// The message about more writes than copies.
pub open spec fn too_many_writes(min_writes: nat, replicas: nat) -> Seq<char> {
    "min_writes ("@ + text::decimal(min_writes) + ") must be <= replicas ("@ + text::decimal(
        replicas,
    ) + ")"@
}

/// The configuration of a flat file: at least one shard, and no more writes than
/// copies.
pub open spec fn cluster_conf(file: Seq<char>) -> Result<ClusterSpec, Seq<char>> {
    match flat_lines(empty_cluster(), text::lines_of(file), 0) {
        Err(e) => Err(e),
        Ok(conf) => if conf.shards.len() == 0 {
            Err("no shards defined"@)
        } else {
            match conf.min_writes {
                Some(w) => if w > conf.replicas {
                    Err(too_many_writes(w as nat, conf.replicas as nat))
                } else {
                    Ok(conf)
                },
                None => Ok(conf),
            }
        },
    }
}

/// Applies one directive.
fn apply_directive(conf: &mut ClusterConf, tokens: &Vec<String>, line: &str, n: usize) -> (r: Result<
    (),
    String,
>)
    requires
        tokens.len() > 0,
    ensures
        match r {
            Ok(_) => directive(old(conf)@, text::views(tokens@), line@, n as nat) == Ok::<
                ClusterSpec,
                Seq<char>,
            >(final(conf)@),
            Err(e) => directive(old(conf)@, text::views(tokens@), line@, n as nat) == Err::<
                ClusterSpec,
                Seq<char>,
            >(e@),
        },
{
    let key = tokens[0].as_str();
    assert(key@ == text::views(tokens@)[0]);
    if str_eq(key, "replicas") {
        conf.replicas = parse_positive(tokens, key, n)?;
    } else if str_eq(key, "min_writes") {
        conf.min_writes = Some(parse_positive(tokens, key, n)?);
    } else if str_eq(key, "catalog") {
        conf.catalog = Some(require_value(tokens, key, n)?.to_owned());
    } else if str_eq(key, "read_prefer") {
        let v = require_value(tokens, key, n)?;
        if !read_prefer_known(v) {
            return Err(
                line_error(
                    n,
                    around("unknown read_prefer '", v, "' (expected round-robin or ordered)").as_str(),
                ),
            );
        }
        conf.read_prefer = Some(v.to_owned());
    } else if str_eq(key, "direct_io") {
        conf.direct_io = parse_switch(tokens);
    } else if str_eq(key, "compression") {
        conf.compression = Some(require_value(tokens, key, n)?.to_owned());
    } else if str_eq(key, "size_mb") {
        let v = require_value(tokens, key, n)?;
        match parse_u64(v) {
            Some(size) => {
                conf.size_mb = Some(size);
            },
            None => {
                return Err(line_error(n, around("invalid size_mb '", v, "'").as_str()));
            },
        }
    } else if str_eq(key, "read_only") {
        conf.read_only = parse_switch(tokens);
    } else if str_eq(key, "delete_requires_min_writes") {
        conf.delete_requires_min_writes = parse_switch(tokens);
    } else if str_eq(key, "shard") {
        assert(text::views(tokens@).skip(1) =~= text::views(tokens@).drop_first());
        let ghost before = conf.shards@;
        let shard = parse_shard_tokens(tokens, 1, n)?;
        conf.shards.push(shard);
        assert(shard_specs(conf.shards@) =~= shard_specs(before).push(shard@));
    } else if str_eq(key, "cluster") || daemon_word(key) || contains(line, "rf=") {
    } else {
        return Err(
            line_error(
                n,
                around(
                    "unknown directive '",
                    key,
                    "' (expected replicas, min_writes, catalog, read_prefer, direct_io, compression, size_mb, read_only, or shard)",
                ).as_str(),
            ),
        );
    }
    Ok(())
}

/// Parses a cluster configuration.
///
/// Directives of the daemon and indented lines (the nodes of a tree) are ignored,
/// so that one file works for both. An error is a message.
pub fn parse_cluster_conf(file: &str) -> (r: Result<ClusterConf, String>)
    ensures
        match r {
            Ok(conf) => cluster_conf(file@) == Ok::<ClusterSpec, Seq<char>>(conf@),
            Err(e) => cluster_conf(file@) == Err::<ClusterSpec, Seq<char>>(e@),
        },
{
    let lines = text::lines(file);
    let mut conf = ClusterConf {
        replicas: 1,
        min_writes: None,
        catalog: None,
        read_prefer: None,
        direct_io: false,
        compression: None,
        size_mb: None,
        read_only: false,
        delete_requires_min_writes: false,
        shards: Vec::new(),
    };
    let ghost all = text::views(lines@);
    let mut i: usize = 0;
    assert(conf@.shards =~= Seq::<ShardSpec>::empty());
    assert(all.skip(0) =~= all);
    while i < lines.len()
        invariant
            i <= lines.len(),
            all == text::views(lines@),
            all == text::lines_of(file@),
            flat_lines(conf@, all.skip(i as int), i as nat) == flat_lines(empty_cluster(), all, 0),
        decreases lines.len() - i,
    {
        let raw = lines[i].as_str();
        proof {
            assert(all.skip(i as int)[0] == raw@);
            assert(all.skip(i as int).drop_first() =~= all.skip(i + 1));
        }
        let line = text::trim(raw);
        if !ignored(line.as_str()) && text::indent(raw) == 0 {
            match tokenize(line.as_str()) {
                Err(e) => {
                    return Err(line_error(i + 1, e.as_str()));
                },
                Ok(tokens) => {
                    if tokens.len() > 0 {
                        apply_directive(&mut conf, &tokens, line.as_str(), i + 1)?;
                    }
                },
            }
        }
        i = i + 1;
    }
    assert(all.skip(i as int) =~= Seq::<Seq<char>>::empty());
    if conf.shards.len() == 0 {
        return Err("no shards defined".to_owned());
    }
    if let Some(w) = conf.min_writes {
        if w > conf.replicas {
            let mut e = "min_writes (".to_owned();
            e.append(number(w as u64).as_str());
            e.append(") must be <= replicas (");
            e.append(number(conf.replicas as u64).as_str());
            e.append(")");
            return Err(e);
        }
    }
    Ok(conf)
}

// -- Tree configuration (nested clusters) -----------------------------------

/// A node of a cluster tree: a sharded store of its own, with its own replication
/// factor. A child node is a `Node` shard of its parent.
#[derive(Debug)]
pub struct TreeNode {
    /// Node name, unique within the cluster.
    pub name: String,
    /// Replication factor of this node.
    pub replication_factor: usize,
    /// Successful writes that a put needs; the default is `max(rf - 1, 1)`.
    pub min_writes: Option<usize>,
    /// The shards, in order, child nodes among them.
    pub shards: Vec<ShardConf>,
    /// The child nodes.
    pub children: Vec<TreeNode>,
}

/// What a node says.
pub struct TreeSpec {
    pub name: Seq<char>,
    pub replication_factor: usize,
    pub min_writes: Option<usize>,
    pub shards: Seq<ShardSpec>,
    pub children: Seq<TreeSpec>,
}

/// What a node says.
pub open spec fn tree_spec(node: TreeNode) -> TreeSpec
    decreases node,
{
    TreeSpec {
        name: node.name@,
        replication_factor: node.replication_factor,
        min_writes: node.min_writes,
        shards: shard_specs(node.shards@),
        children: tree_specs(node.children@),
    }
}

/// What the nodes of a list say.
pub open spec fn tree_specs(nodes: Seq<TreeNode>) -> Seq<TreeSpec>
    decreases nodes,
{
    if nodes.len() == 0 {
        Seq::empty()
    } else {
        tree_specs(nodes.drop_last()).push(tree_spec(nodes.last()))
    }
}

impl View for TreeNode {
    type V = TreeSpec;

    open spec fn view(&self) -> TreeSpec {
        tree_spec(*self)
    }
}

/// The nodes of a list, one by one.
pub proof fn lemma_tree_specs(nodes: Seq<TreeNode>)
    ensures
        tree_specs(nodes).len() == nodes.len(),
        forall|i: int| 0 <= i < nodes.len() ==> #[trigger] tree_specs(nodes)[i] == tree_spec(nodes[i]),
    decreases nodes.len(),
{
    if nodes.len() > 0 {
        lemma_tree_specs(nodes.drop_last());
    }
}

/// The first node of this name in a tree, parents before children.
pub open spec fn find_in(node: TreeSpec, name: Seq<char>) -> Option<TreeSpec>
    decreases node,
{
    if node.name == name {
        Some(node)
    } else {
        find_among(node.children, name)
    }
}

/// The first node of this name in a list of trees.
pub open spec fn find_among(nodes: Seq<TreeSpec>, name: Seq<char>) -> Option<TreeSpec>
    decreases nodes,
{
    if nodes.len() == 0 {
        None
    } else {
        match find_in(nodes[0], name) {
            Some(found) => Some(found),
            None => find_among(nodes.drop_first(), name),
        }
    }
}

impl TreeNode {
    /// Finds a node by name in this tree.
    pub fn find_node(&self, name: &str) -> (r: Option<&TreeNode>)
        ensures
            match r {
                Some(node) => find_in(self@, name@) == Some(node@),
                None => find_in(self@, name@) is None,
            },
        decreases self,
    {
        if str_eq(self.name.as_str(), name) {
            return Some(self);
        }
        let ghost children = self@.children;
        proof {
            lemma_tree_specs(self.children@);
            assert(children.skip(0) =~= children);
        }
        let mut i: usize = 0;
        while i < self.children.len()
            invariant
                i <= self.children.len(),
                self.name@ != name@,
                children == tree_specs(self.children@),
                children.len() == self.children.len(),
                forall|k: int|
                    0 <= k < self.children.len() ==> #[trigger] children[k] == tree_spec(
                        self.children@[k],
                    ),
                find_among(children.skip(i as int), name@) == find_among(children, name@),
            decreases self.children.len() - i,
        {
            let child = &self.children[i];
            assert(decreases_to!(self => self.children@));
            assert(decreases_to!(self.children@ => self.children@[i as int]));
            proof {
                assert(children.skip(i as int)[0] == child@);
                assert(children.skip(i as int).drop_first() =~= children.skip(i + 1));
            }
            if let Some(found) = child.find_node(name) {
                return Some(found);
            }
            i = i + 1;
        }
        assert(children.skip(i as int) =~= Seq::<TreeSpec>::empty());
        None
    }
}

/// Configuration of a tree file: the storage topology. What only concerns the
/// daemon is left out.
#[derive(Debug)]
pub struct TreeConf {
    /// Cluster name.
    pub cluster_name: String,
    /// Root of the tree.
    pub root: TreeNode,
    /// Catalog persistence.
    pub catalog: Option<String>,
    /// Read preference.
    pub read_prefer: Option<String>,
    /// Default: compression of new raw images.
    pub compression: Option<String>,
    /// Default: O_DIRECT.
    pub direct_io: bool,
    /// Default: size of new raw images, in MB.
    pub size_mb: Option<u64>,
    /// Default: open shards read-only.
    pub read_only: bool,
}

/// What a tree configuration says.
pub struct TreeConfSpec {
    pub cluster_name: Seq<char>,
    pub root: TreeSpec,
    pub catalog: Option<Seq<char>>,
    pub read_prefer: Option<Seq<char>>,
    pub compression: Option<Seq<char>>,
    pub direct_io: bool,
    pub size_mb: Option<u64>,
    pub read_only: bool,
}

impl View for TreeConf {
    type V = TreeConfSpec;

    open spec fn view(&self) -> TreeConfSpec {
        TreeConfSpec {
            cluster_name: self.cluster_name@,
            root: self.root@,
            catalog: text::opt_view(self.catalog),
            read_prefer: text::opt_view(self.read_prefer),
            compression: text::opt_view(self.compression),
            direct_io: self.direct_io,
            size_mb: self.size_mb,
            read_only: self.read_only,
        }
    }
}

impl TreeConf {
    /// Finds a node by name anywhere in the tree.
    pub fn find_node(&self, name: &str) -> (r: Option<&TreeNode>)
        ensures
            match r {
                Some(node) => find_in(self@.root, name@) == Some(node@),
                None => find_in(self@.root, name@) is None,
            },
    {
        self.root.find_node(name)
    }
}

/// The first word of a line.
pub open spec fn first_word(line: Seq<char>) -> Seq<char> {
    let s = text::trim_start(line);
    s.take(text::span(s, |c: char| text::is_white_space(c)) as int)
}

/// Whether a line defines a node: it has `rf=` and does not start with a word of a
/// shard line.
pub open spec fn is_node_line(line: Seq<char>) -> bool {
    let first = first_word(line);
    &&& first != "raw"@
    &&& first != "fs"@
    &&& first != "s3"@
    &&& first != "mem"@
    &&& first != "shard"@
    &&& text::has_substring(line, "rf="@)
}

/// Whether a line defines a node.
fn is_tree_node_line(line: &str) -> (r: bool)
    ensures
        r == is_node_line(line@),
{
    let v = text::chars_of(line);
    let start: usize = text::skip_space(&v, 0);
    assert(v@.skip(0) =~= v@);
    let end: usize = text::skip_word(&v, start);
    let first = text::string_of(&v, start, end);
    assert(first@ =~= first_word(line@));
    let word = first.as_str();
    !str_eq(word, "raw") && !str_eq(word, "fs") && !str_eq(word, "s3") && !str_eq(word, "mem")
        && !str_eq(word, "shard") && contains(line, "rf=")
}

/// What the header line of a node says.
pub struct NodeHeader {
    pub name: Seq<char>,
    pub rf: usize,
    pub min_writes: Option<usize>,
}

/// A positive number as an option of a node.
pub open spec fn node_number(name: Seq<char>, what: Seq<char>, value: Seq<char>) -> Result<
    usize,
    Seq<char>,
> {
    match usize_of(value) {
        None => Err(at_node(name, "invalid "@ + what + " value: "@ + value)),
        Some(n) => if n == 0 {
            Err(at_node(name, what + " must be >= 1"@))
        } else {
            Ok(n)
        },
    }
}

fn parse_node_number(name: &str, what: &str, value: &str) -> (r: Result<usize, String>)
    ensures
        match r {
            Ok(n) => node_number(name@, what@, value@) == Ok::<usize, Seq<char>>(n),
            Err(e) => node_number(name@, what@, value@) == Err::<usize, Seq<char>>(e@),
        },
{
    match parse_usize(value) {
        None => {
            let mut m = "invalid ".to_owned();
            m.append(what);
            m.append(" value: ");
            m.append(value);
            Err(node_error(name, m.as_str()))
        },
        Some(n) => {
            if n == 0 {
                let mut m = what.to_owned();
                m.append(" must be >= 1");
                Err(node_error(name, m.as_str()))
            } else {
                Ok(n)
            }
        },
    }
}

/// One option of a node. Options of the daemon are ignored.
pub open spec fn node_option(h: NodeHeader, token: Seq<char>) -> Result<NodeHeader, Seq<char>> {
    if let Some(value) = text::after_prefix(token, "rf="@) {
        match node_number(h.name, "rf"@, value) {
            Ok(n) => Ok(NodeHeader { rf: n, ..h }),
            Err(e) => Err(e),
        }
    } else if let Some(value) = text::after_prefix(token, "min_writes="@) {
        match node_number(h.name, "min_writes"@, value) {
            Ok(n) => Ok(NodeHeader { min_writes: Some(n), ..h }),
            Err(e) => Err(e),
        }
    } else {
        Ok(h)
    }
}

/// The options of a node, one after the other.
pub open spec fn node_options(h: NodeHeader, tokens: Seq<Seq<char>>) -> Result<
    NodeHeader,
    Seq<char>,
>
    decreases tokens.len(),
{
    if tokens.len() == 0 {
        Ok(h)
    } else {
        match node_option(h, tokens[0]) {
            Ok(h) => node_options(h, tokens.drop_first()),
            Err(e) => Err(e),
        }
    }
}

/// The message about more writes than copies of a node.
pub open spec fn node_writes_message(name: Seq<char>, min_writes: nat, rf: nat) -> Seq<char> {
    at_node(
        name,
        "min_writes ("@ + text::decimal(min_writes) + ") must be <= rf ("@ + text::decimal(rf)
            + ")"@,
    )
}

/// The header line of a node: a name and options, with a replication factor of 1
/// unless `rf=` gives another.
pub open spec fn node_header(line: Seq<char>) -> Result<NodeHeader, Seq<char>> {
    match tokens_of(line) {
        None => Err(open_quote(line)),
        Some(tokens) => if tokens.len() == 0 {
            Err("empty node line"@)
        } else {
            let start = NodeHeader { name: tokens[0], rf: 1, min_writes: None };
            match node_options(start, tokens.drop_first()) {
                Err(e) => Err(e),
                Ok(h) => match h.min_writes {
                    Some(w) => if w > h.rf {
                        Err(node_writes_message(h.name, w as nat, h.rf as nat))
                    } else {
                        Ok(h)
                    },
                    None => Ok(h),
                },
            }
        },
    }
}

/// The header line of a node: name, replication factor and needed writes.
fn parse_tree_node_line(line: &str) -> (r: Result<(String, usize, Option<usize>), String>)
    ensures
        match r {
            Ok(h) => node_header(line@) == Ok::<NodeHeader, Seq<char>>(
                NodeHeader { name: h.0@, rf: h.1, min_writes: h.2 },
            ),
            Err(e) => node_header(line@) == Err::<NodeHeader, Seq<char>>(e@),
        },
{
    let parts = tokenize(line)?;
    if parts.len() == 0 {
        return Err("empty node line".to_owned());
    }
    let ghost all = text::views(parts@);
    let name = parts[0].clone();
    let mut rf: usize = 1;
    let mut min_writes: Option<usize> = None;
    let ghost start = NodeHeader { name: name@, rf: 1, min_writes: None };
    let mut i: usize = 1;
    assert(all.skip(1) =~= all.drop_first());
    while i < parts.len()
        invariant
            1 <= i <= parts.len(),
            all == text::views(parts@),
            node_options(NodeHeader { name: name@, rf, min_writes }, all.skip(i as int))
                == node_options(start, all.drop_first()),
            start == (NodeHeader { name: all[0], rf: 1, min_writes: None }),
            name@ == all[0],
            tokens_of(line@) == Some(all),
        decreases parts.len() - i,
    {
        let part = parts[i].as_str();
        proof {
            assert(all.skip(i as int)[0] == part@);
            assert(all.skip(i as int).drop_first() =~= all.skip(i + 1));
        }
        if let Some(val) = strip_prefix(part, "rf=") {
            rf = parse_node_number(name.as_str(), "rf", val)?;
        } else if let Some(val) = strip_prefix(part, "min_writes=") {
            min_writes = Some(parse_node_number(name.as_str(), "min_writes", val)?);
        }
        i = i + 1;
    }
    assert(all.skip(i as int) =~= Seq::<Seq<char>>::empty());
    if let Some(w) = min_writes {
        if w > rf {
            let mut m = "min_writes (".to_owned();
            m.append(number(w as u64).as_str());
            m.append(") must be <= rf (");
            m.append(number(rf as u64).as_str());
            m.append(")");
            return Err(node_error(name.as_str(), m.as_str()));
        }
    }
    Ok((name, rf, min_writes))
}

/// A shard line of a tree: as in a flat file, without the word `shard`. A bare path
/// is one that starts with a slash or has a dot.
pub open spec fn tree_shard(line: Seq<char>) -> Result<ShardSpec, Seq<char>> {
    match tokens_of(line) {
        None => Err(open_quote(line)),
        Some(tokens) => if tokens.len() == 0 {
            Err("empty shard line"@)
        } else if tokens[0] == "raw"@ {
            raw_shard(tokens.drop_first(), 0)
        } else if tokens[0] == "fs"@ {
            fs_shard(tokens.drop_first(), 0)
        } else if tokens[0] == "s3"@ {
            s3_shard(tokens.drop_first(), 0)
        } else if tokens[0] == "mem"@ {
            Ok(ShardSpec::Mem)
        } else if "/"@.is_prefix_of(tokens[0]) || text::has_substring(tokens[0], "."@) {
            raw_shard(tokens, 0)
        } else {
            Err(
                "unknown shard type: '"@ + tokens[0] + "' (expected raw, fs, s3, mem)"@,
            )
        },
    }
}

/// A shard line of a tree.
fn parse_tree_shard_line(line: &str) -> (r: Result<ShardConf, String>)
    ensures
        shard_result(r) == tree_shard(line@),
{
    let parts = tokenize(line)?;
    if parts.len() == 0 {
        return Err("empty shard line".to_owned());
    }
    let ghost all = text::views(parts@);
    assert(all.skip(1) =~= all.drop_first());
    assert(all.skip(0) =~= all);
    let kind = parts[0].as_str();
    if str_eq(kind, "raw") {
        parse_raw_shard(&parts, 1, 0)
    } else if str_eq(kind, "fs") {
        parse_fs_shard(&parts, 1, 0)
    } else if str_eq(kind, "s3") {
        parse_s3_shard(&parts, 1, 0)
    } else if str_eq(kind, "mem") {
        Ok(ShardConf::Mem)
    } else if starts_with(kind, "/") || contains(kind, ".") {
        parse_raw_shard(&parts, 0, 0)
    } else {
        Err(around("unknown shard type: '", kind, "' (expected raw, fs, s3, mem)"))
    }
}

/// A line of a tree and its indentation.
pub struct TreeLine {
    pub indent: nat,
    pub line: Seq<char>,
}

/// The lines of a tree and their indentation.
pub open spec fn tree_lines(lines: Seq<(usize, String)>) -> Seq<TreeLine> {
    Seq::new(
        lines.len(),
        |i: int| TreeLine { indent: lines[i].0 as nat, line: lines[i].1@ },
    )
}

/// The number of lines at the start that are indented more than `indent`.
pub open spec fn deeper(lines: Seq<TreeLine>, indent: nat) -> nat
    decreases lines.len(),
{
    if lines.len() == 0 || lines[0].indent <= indent {
        0
    } else {
        1 + deeper(lines.drop_first(), indent)
    }
}

/// No more lines are deeper than there are lines.
pub proof fn lemma_deeper_bound(lines: Seq<TreeLine>, indent: nat)
    ensures
        deeper(lines, indent) <= lines.len(),
    decreases lines.len(),
{
    if lines.len() > 0 && lines[0].indent > indent {
        lemma_deeper_bound(lines.drop_first(), indent);
    }
}

/// Where the block of the node at `pos` ends: after the deeper lines that follow it.
pub open spec fn block_end(lines: Seq<TreeLine>, pos: nat) -> nat {
    pos + 1 + deeper(lines.skip(pos as int + 1), lines[pos as int].indent)
}

/// The node whose header is at `pos`.
pub open spec fn node_at(lines: Seq<TreeLine>, pos: nat) -> Result<TreeSpec, Seq<char>>
    decreases lines.len() - pos, 0nat,
{
    if pos >= lines.len() {
        Err("unexpected end of config"@)
    } else {
        match node_header(lines[pos as int].line) {
            Err(e) => Err(e),
            Ok(h) => match members(
                lines,
                pos + 1,
                block_end(lines, pos),
                Seq::empty(),
                Seq::empty(),
            ) {
                Err(e) => Err(e),
                Ok((shards, children)) => Ok(
                    TreeSpec {
                        name: h.name,
                        replication_factor: h.rf,
                        min_writes: h.min_writes,
                        shards,
                        children,
                    },
                ),
            },
        }
    }
}

/// The shards and child nodes of the lines from `pos` to `end`, after those that
/// came before. A child node takes its whole block.
pub open spec fn members(
    lines: Seq<TreeLine>,
    pos: nat,
    end: nat,
    shards: Seq<ShardSpec>,
    children: Seq<TreeSpec>,
) -> Result<(Seq<ShardSpec>, Seq<TreeSpec>), Seq<char>>
    decreases lines.len() - pos, 1nat,
{
    if pos >= end || pos >= lines.len() {
        Ok((shards, children))
    } else if is_node_line(lines[pos as int].line) {
        proof {
            lemma_deeper_bound(lines.skip(pos as int + 1), lines[pos as int].indent);
        }
        match node_at(lines, pos) {
            Err(e) => Err(e),
            Ok(child) => members(
                lines,
                block_end(lines, pos),
                end,
                shards.push(ShardSpec::Node(child.name)),
                children.push(child),
            ),
        }
    } else {
        match tree_shard(lines[pos as int].line) {
            Err(e) => Err(e),
            Ok(shard) => members(lines, pos + 1, end, shards.push(shard), children),
        }
    }
}

/// Deeper lines end where a line is not deeper, or where the lines end.
proof fn lemma_deeper(lines: Seq<TreeLine>, indent: nat, n: int)
    requires
        0 <= n <= lines.len(),
        forall|i: int| 0 <= i < n ==> (#[trigger] lines[i]).indent > indent,
        n < lines.len() ==> lines[n].indent <= indent,
    ensures
        deeper(lines, indent) == n,
    decreases lines.len(),
{
    if n > 0 {
        let tail = lines.drop_first();
        assert forall|i: int| 0 <= i < n - 1 implies (#[trigger] tail[i]).indent > indent by {
            assert(tail[i] == lines[i + 1]);
        }
        assert(lines[0].indent > indent);
        lemma_deeper(tail, indent, n - 1);
    }
}

/// Where the block of the node at `pos` ends.
fn find_block_end(lines: &Vec<(usize, String)>, pos: usize) -> (end: usize)
    requires
        pos < lines.len(),
    ensures
        end == block_end(tree_lines(lines@), pos as nat),
        pos < end <= lines.len(),
{
    let indent: usize = lines[pos].0;
    let mut end: usize = pos + 1;
    while end < lines.len() && lines[end].0 > indent
        invariant
            pos < end <= lines.len(),
            indent == lines@[pos as int].0,
            forall|k: int| pos < k < end ==> (#[trigger] lines@[k]).0 > indent,
        decreases lines.len() - end,
    {
        end = end + 1;
    }
    proof {
        let all = tree_lines(lines@);
        let rest = all.skip(pos as int + 1);
        assert forall|i: int| 0 <= i < end - pos - 1 implies (#[trigger] rest[i]).indent
            > indent by {
            assert(rest[i].indent == lines@[i + pos + 1].0);
        }
        lemma_deeper(rest, indent as nat, end - pos - 1);
    }
    end
}

/// Parses the node whose header is at `pos`, with its block.
fn parse_tree_node_block(lines: &Vec<(usize, String)>, pos: usize) -> (r: Result<TreeNode, String>)
    ensures
        match r {
            Ok(node) => node_at(tree_lines(lines@), pos as nat) == Ok::<TreeSpec, Seq<char>>(node@),
            Err(e) => node_at(tree_lines(lines@), pos as nat) == Err::<TreeSpec, Seq<char>>(e@),
        },
    decreases lines.len() - pos,
{
    if pos >= lines.len() {
        return Err("unexpected end of config".to_owned());
    }
    let ghost all = tree_lines(lines@);
    let header = parse_tree_node_line(lines[pos].1.as_str())?;
    let end: usize = find_block_end(lines, pos);
    let mut shards: Vec<ShardConf> = Vec::new();
    let mut children: Vec<TreeNode> = Vec::new();
    let mut i: usize = pos + 1;
    assert(shard_specs(shards@) =~= Seq::<ShardSpec>::empty());
    let ghost start = members(all, pos as nat + 1, end as nat, Seq::empty(), Seq::empty());
    while i < end
        invariant
            pos < i,
            end <= lines.len(),
            all == tree_lines(lines@),
            node_header(all[pos as int].line) is Ok,
            end == block_end(all, pos as nat),
            start == members(all, pos as nat + 1, end as nat, Seq::empty(), Seq::empty()),
            members(all, i as nat, end as nat, shard_specs(shards@), tree_specs(children@))
                == start,
        decreases lines.len() - i,
    {
        let line = lines[i].1.as_str();
        assert(all[i as int].line == line@);
        let ghost old_shards = shards@;
        let ghost old_children = children@;
        if is_tree_node_line(line) {
            let child = parse_tree_node_block(lines, i)?;
            let next: usize = find_block_end(lines, i);
            shards.push(ShardConf::Node(child.name.clone()));
            children.push(child);
            assert(shard_specs(shards@) =~= shard_specs(old_shards).push(
                ShardSpec::Node(child@.name),
            ));
            assert(children@.drop_last() =~= old_children);
            i = next;
        } else {
            let shard = parse_tree_shard_line(line)?;
            shards.push(shard);
            assert(shard_specs(shards@) =~= shard_specs(old_shards).push(shard@));
            i = i + 1;
        }
    }
    Ok(
        TreeNode {
            name: header.0,
            replication_factor: header.1,
            min_writes: header.2,
            shards,
            children,
        },
    )
}

/// The top-level directives of a tree file, and the lines of its nodes.
pub struct TreeDraft {
    pub cluster_name: Seq<char>,
    pub catalog: Option<Seq<char>>,
    pub read_prefer: Option<Seq<char>>,
    pub compression: Option<Seq<char>>,
    pub direct_io: bool,
    pub size_mb: Option<u64>,
    pub read_only: bool,
    pub nodes: Seq<TreeLine>,
}

/// The key of a top-level directive: what stands before the first white space.
pub open spec fn directive_key(line: Seq<char>) -> Seq<char> {
    line.take(text::span(line, |c: char| text::is_white_space(c)) as int)
}

/// The value of a top-level directive: what stands after the first white space.
pub open spec fn directive_value(line: Seq<char>) -> Option<Seq<char>> {
    let n = text::span(line, |c: char| text::is_white_space(c));
    if n < line.len() {
        Some(text::trimmed(line.skip(n as int + 1)))
    } else {
        None
    }
}

/// Key and value of a top-level directive.
fn split_directive(line: &str) -> (r: (String, Option<String>))
    ensures
        r.0@ == directive_key(line@),
        text::opt_view(r.1) == directive_value(line@),
{
    let v = text::chars_of(line);
    let n: usize = text::skip_word(&v, 0);
    assert(v@.skip(0) =~= v@);
    let key = text::string_of(&v, 0, n);
    assert(key@ =~= directive_key(line@));
    if n < v.len() {
        let rest = text::string_of(&v, n + 1, v.len());
        assert(rest@ =~= line@.skip(n as int + 1));
        (key, Some(text::trim(rest.as_str())))
    } else {
        (key, None)
    }
}

/// The effect of one top-level line of a tree file: of a directive, or of the
/// header of a node. A top-level `replicas` has none: the factor is that of each
/// node.
pub open spec fn tree_directive(d: TreeDraft, line: Seq<char>) -> Result<TreeDraft, Seq<char>> {
    let key = directive_key(line);
    let value = directive_value(line);
    if key == "cluster"@ {
        Ok(
            TreeDraft {
                cluster_name: match value {
                    Some(v) => v,
                    None => Seq::empty(),
                },
                ..d
            },
        )
    } else if key == "catalog"@ {
        Ok(TreeDraft { catalog: value, ..d })
    } else if key == "read_prefer"@ {
        match value {
            None => Ok(d),
            Some(v) => if is_read_prefer(v) {
                Ok(TreeDraft { read_prefer: Some(v), ..d })
            } else {
                Err(unknown_read_prefer(v))
            },
        }
    } else if key == "replicas"@ {
        Ok(d)
    } else if key == "compression"@ {
        Ok(TreeDraft { compression: value, ..d })
    } else if key == "direct_io"@ {
        Ok(
            TreeDraft {
                direct_io: match value {
                    Some(v) => is_yes(v),
                    None => true,
                },
                ..d
            },
        )
    } else if key == "size_mb"@ {
        match value {
            None => Ok(d),
            Some(v) => match u64_of(v) {
                Some(n) => Ok(TreeDraft { size_mb: Some(n), ..d }),
                None => Err("invalid size_mb: "@ + v),
            },
        }
    } else if key == "read_only"@ {
        Ok(
            TreeDraft {
                read_only: match value {
                    Some(v) => is_yes(v),
                    None => true,
                },
                ..d
            },
        )
    } else if is_daemon_word(key) {
        Ok(d)
    } else {
        Ok(TreeDraft { nodes: d.nodes.push(TreeLine { indent: 0, line }), ..d })
    }
}

/// The effect of one line of a tree file.
pub open spec fn tree_line(d: TreeDraft, raw: Seq<char>) -> Result<TreeDraft, Seq<char>> {
    let line = text::trimmed(raw);
    let indent = text::indentation(raw) as nat;
    if is_ignored(line) {
        Ok(d)
    } else if indent == 0 {
        tree_directive(d, line)
    } else {
        Ok(TreeDraft { nodes: d.nodes.push(TreeLine { indent, line }), ..d })
    }
}

/// The effect of the lines of a tree file.
pub open spec fn tree_file_lines(d: TreeDraft, lines: Seq<Seq<char>>) -> Result<
    TreeDraft,
    Seq<char>,
>
    decreases lines.len(),
{
    if lines.len() == 0 {
        Ok(d)
    } else {
        match tree_line(d, lines[0]) {
            Ok(d) => tree_file_lines(d, lines.drop_first()),
            Err(e) => Err(e),
        }
    }
}

/// A tree file without lines.
pub open spec fn empty_tree() -> TreeDraft {
    TreeDraft {
        cluster_name: Seq::empty(),
        catalog: None,
        read_prefer: None,
        compression: None,
        direct_io: false,
        size_mb: None,
        read_only: false,
        nodes: Seq::empty(),
    }
}

/// The configuration of a tree file. Its first node line is the root, whose name is
/// that of the cluster if there is no other.
pub open spec fn tree_conf(file: Seq<char>) -> Result<TreeConfSpec, Seq<char>> {
    match tree_file_lines(empty_tree(), text::lines_of(file)) {
        Err(e) => Err(e),
        Ok(d) => if d.nodes.len() == 0 {
            Err("no nodes defined in tree config"@)
        } else {
            match node_at(d.nodes, 0) {
                Err(e) => Err(e),
                Ok(root) => Ok(
                    TreeConfSpec {
                        cluster_name: if d.cluster_name.len() == 0 {
                            root.name
                        } else {
                            d.cluster_name
                        },
                        root,
                        catalog: d.catalog,
                        read_prefer: d.read_prefer,
                        compression: d.compression,
                        direct_io: d.direct_io,
                        size_mb: d.size_mb,
                        read_only: d.read_only,
                    },
                ),
            }
        },
    }
}

/// A tree file that is being read.
struct Draft {
    cluster_name: String,
    catalog: Option<String>,
    read_prefer: Option<String>,
    compression: Option<String>,
    direct_io: bool,
    size_mb: Option<u64>,
    read_only: bool,
    nodes: Vec<(usize, String)>,
}

impl Draft {
    spec fn spec(&self) -> TreeDraft {
        TreeDraft {
            cluster_name: self.cluster_name@,
            catalog: text::opt_view(self.catalog),
            read_prefer: text::opt_view(self.read_prefer),
            compression: text::opt_view(self.compression),
            direct_io: self.direct_io,
            size_mb: self.size_mb,
            read_only: self.read_only,
            nodes: tree_lines(self.nodes@),
        }
    }

    /// Adds a line of a node.
    fn push_node(&mut self, indent: usize, line: String)
        ensures
            final(self).spec() == (TreeDraft {
                nodes: old(self).spec().nodes.push(
                    TreeLine { indent: indent as nat, line: line@ },
                ),
                ..old(self).spec()
            }),
    {
        let ghost before = self.nodes@;
        self.nodes.push((indent, line));
        assert(tree_lines(self.nodes@) =~= tree_lines(before).push(
            TreeLine { indent: indent as nat, line: line@ },
        ));
    }

    /// Applies one top-level line.
    fn apply(&mut self, line: String) -> (r: Result<(), String>)
        ensures
            match r {
                Ok(_) => tree_directive(old(self).spec(), line@) == Ok::<TreeDraft, Seq<char>>(
                    final(self).spec(),
                ),
                Err(e) => tree_directive(old(self).spec(), line@) == Err::<TreeDraft, Seq<char>>(
                    e@,
                ),
            },
    {
        let (k, value) = split_directive(line.as_str());
        let key = k.as_str();
        if str_eq(key, "cluster") {
            self.cluster_name = match value {
                Some(v) => v,
                None => String::new(),
            };
        } else if str_eq(key, "catalog") {
            self.catalog = value;
        } else if str_eq(key, "read_prefer") {
            if let Some(v) = value {
                if !read_prefer_known(v.as_str()) {
                    return Err(
                        around(
                            "unknown read_prefer '",
                            v.as_str(),
                            "' (expected round-robin or ordered)",
                        ),
                    );
                }
                self.read_prefer = Some(v);
            }
        } else if str_eq(key, "replicas") {
        } else if str_eq(key, "compression") {
            self.compression = value;
        } else if str_eq(key, "direct_io") {
            self.direct_io = match value {
                Some(v) => yes(v.as_str()),
                None => true,
            };
        } else if str_eq(key, "size_mb") {
            if let Some(v) = value {
                match parse_u64(v.as_str()) {
                    Some(n) => {
                        self.size_mb = Some(n);
                    },
                    None => {
                        let mut e = "invalid size_mb: ".to_owned();
                        e.append(v.as_str());
                        return Err(e);
                    },
                }
            }
        } else if str_eq(key, "read_only") {
            self.read_only = match value {
                Some(v) => yes(v.as_str()),
                None => true,
            };
        } else if daemon_word(key) {
        } else {
            self.push_node(0, line);
        }
        Ok(())
    }
}

/// Parses a tree configuration.
///
/// Indentation nests clusters: a node line has a name and `rf=N`, and its shards
/// and child nodes stand indented below it. What only concerns the daemon is
/// ignored. An error is a message.
///
/// ```text
/// cluster  my-cluster
/// compression  zstd
///
/// root  rf=2
///   raw  /dev/nvme0n1
///   raw  /dev/nvme1n1
///   child  rf=1
///     fs  /mnt/data
///     s3  endpoint=https://s3.amazonaws.com  bucket=backup
/// ```
pub fn parse_tree_conf(file: &str) -> (r: Result<TreeConf, String>)
    ensures
        match r {
            Ok(conf) => tree_conf(file@) == Ok::<TreeConfSpec, Seq<char>>(conf@),
            Err(e) => tree_conf(file@) == Err::<TreeConfSpec, Seq<char>>(e@),
        },
{
    let lines = text::lines(file);
    let ghost all = text::views(lines@);
    let mut d = Draft {
        cluster_name: String::new(),
        catalog: None,
        read_prefer: None,
        compression: None,
        direct_io: false,
        size_mb: None,
        read_only: false,
        nodes: Vec::new(),
    };
    let mut i: usize = 0;
    assert(tree_lines(d.nodes@) =~= Seq::<TreeLine>::empty());
    assert(all.skip(0) =~= all);
    while i < lines.len()
        invariant
            i <= lines.len(),
            all == text::views(lines@),
            all == text::lines_of(file@),
            tree_file_lines(d.spec(), all.skip(i as int)) == tree_file_lines(empty_tree(), all),
        decreases lines.len() - i,
    {
        let raw = lines[i].as_str();
        proof {
            assert(all.skip(i as int)[0] == raw@);
            assert(all.skip(i as int).drop_first() =~= all.skip(i + 1));
        }
        let line = text::trim(raw);
        if !ignored(line.as_str()) {
            let indent: usize = text::indent(raw);
            if indent == 0 {
                d.apply(line)?;
            } else {
                d.push_node(indent, line);
            }
        }
        i = i + 1;
    }
    assert(all.skip(i as int) =~= Seq::<Seq<char>>::empty());
    if d.nodes.len() == 0 {
        return Err("no nodes defined in tree config".to_owned());
    }
    let root = parse_tree_node_block(&d.nodes, 0)?;
    let cluster_name = if d.cluster_name.as_str().is_empty() {
        root.name.clone()
    } else {
        d.cluster_name
    };
    Ok(
        TreeConf {
            cluster_name,
            root,
            catalog: d.catalog,
            read_prefer: d.read_prefer,
            compression: d.compression,
            direct_io: d.direct_io,
            size_mb: d.size_mb,
            read_only: d.read_only,
        },
    )
}

/// Whether a line is the header of a top-level node.
pub open spec fn is_root_line(raw: Seq<char>) -> bool {
    !is_ignored(text::trimmed(raw)) && text::indentation(raw) == 0 && is_node_line(
        text::trimmed(raw),
    )
}

/// Whether a file is a tree configuration: some line that is not indented is the
/// header of a node.
pub open spec fn has_tree_form(file: Seq<char>) -> bool {
    exists|i: int|
        0 <= i < text::lines_of(file).len() && is_root_line(#[trigger] text::lines_of(file)[i])
}

/// Whether a file is a tree configuration.
pub fn is_tree_config(file: &str) -> (r: bool)
    ensures
        r == has_tree_form(file@),
{
    let lines = text::lines(file);
    let ghost all = text::lines_of(file@);
    let mut i: usize = 0;
    while i < lines.len()
        invariant
            i <= lines.len(),
            all == text::views(lines@),
            all == text::lines_of(file@),
            forall|k: int| 0 <= k < i ==> !is_root_line(#[trigger] all[k]),
        decreases lines.len() - i,
    {
        let raw = lines[i].as_str();
        assert(all[i as int] == raw@);
        let line = text::trim(raw);
        if !ignored(line.as_str()) && text::indent(raw) == 0 && is_tree_node_line(line.as_str()) {
            return true;
        }
        i = i + 1;
    }
    false
}

/// The tree with one node that a flat configuration stands for.
pub open spec fn single_node(c: ClusterSpec) -> TreeConfSpec {
    TreeConfSpec {
        cluster_name: Seq::empty(),
        root: TreeSpec {
            name: "root"@,
            replication_factor: c.replicas,
            min_writes: c.min_writes,
            shards: c.shards,
            children: Seq::empty(),
        },
        catalog: c.catalog,
        read_prefer: c.read_prefer,
        compression: c.compression,
        direct_io: c.direct_io,
        size_mb: c.size_mb,
        read_only: c.read_only,
    }
}

/// A configuration of either form, as a tree.
pub open spec fn auto_conf(file: Seq<char>) -> Result<TreeConfSpec, Seq<char>> {
    if has_tree_form(file) {
        tree_conf(file)
    } else {
        match cluster_conf(file) {
            Ok(c) => Ok(single_node(c)),
            Err(e) => Err(e),
        }
    }
}

/// Parses a configuration of either form. A flat one becomes a tree with one node.
pub fn parse_auto_conf(file: &str) -> (r: Result<TreeConf, String>)
    ensures
        match r {
            Ok(conf) => auto_conf(file@) == Ok::<TreeConfSpec, Seq<char>>(conf@),
            Err(e) => auto_conf(file@) == Err::<TreeConfSpec, Seq<char>>(e@),
        },
{
    if is_tree_config(file) {
        parse_tree_conf(file)
    } else {
        let flat = parse_cluster_conf(file)?;
        Ok(
            TreeConf {
                cluster_name: String::new(),
                root: TreeNode {
                    name: "root".to_owned(),
                    replication_factor: flat.replicas,
                    min_writes: flat.min_writes,
                    shards: flat.shards,
                    children: Vec::new(),
                },
                catalog: flat.catalog,
                read_prefer: flat.read_prefer,
                compression: flat.compression,
                direct_io: flat.direct_io,
                size_mb: flat.size_mb,
                read_only: flat.read_only,
            },
        )
    }
}

// -- Laws -------------------------------------------------------------------

/// Whether a text is one token as it stands: not empty, without white space and quotes.
pub open spec fn is_plain_word(w: Seq<char>) -> bool {
    w.len() > 0 && forall|i: int|
        0 <= i < w.len() ==> !text::is_white_space(#[trigger] w[i]) && w[i] != '"' && w[i] != '\''
}

/// Words with a space between each two.
pub open spec fn spaced(words: Seq<Seq<char>>) -> Seq<char>
    decreases words.len(),
{
    if words.len() == 0 {
        Seq::empty()
    } else if words.len() == 1 {
        words[0]
    } else {
        spaced(words.drop_last()).push(' ') + words.last()
    }
}

proof fn lemma_scan_push(line: Seq<char>, c: char)
    ensures
        scan_line(line.push(c)) == scan_char(scan_line(line), c),
{
    assert(line.push(c).drop_last() =~= line);
}

proof fn lemma_scan_word(line: Seq<char>, w: Seq<char>)
    requires
        scan_line(line).quote is None,
        scan_line(line).current.len() == 0,
        forall|i: int|
            0 <= i < w.len() ==> !text::is_white_space(#[trigger] w[i]) && w[i] != '"' && w[i]
                != '\'',
    ensures
        scan_line(line + w) == (Scan { current: w, ..scan_line(line) }),
    decreases w.len(),
{
    if w.len() == 0 {
        assert(line + w =~= line);
        assert(scan_line(line).current =~= w);
    } else {
        let head = w.drop_last();
        assert forall|i: int| 0 <= i < head.len() implies !text::is_white_space(#[trigger] head[i])
            && head[i] != '"' && head[i] != '\'' by {
            assert(head[i] == w[i]);
        }
        lemma_scan_word(line, head);
        assert(line + w =~= (line + head).push(w.last()));
        lemma_scan_push(line + head, w.last());
        assert(w[w.len() - 1] == w.last());
        assert(head.push(w.last()) =~= w);
    }
}

proof fn lemma_scan_spaced(words: Seq<Seq<char>>)
    requires
        words.len() > 0,
        forall|i: int| 0 <= i < words.len() ==> is_plain_word(#[trigger] words[i]),
    ensures
        scan_line(spaced(words)) == (Scan {
            tokens: words.drop_last(),
            current: words.last(),
            quote: None,
        }),
    decreases words.len(),
{
    let none = Seq::<char>::empty();
    assert(is_plain_word(words[words.len() - 1]));
    if words.len() == 1 {
        lemma_scan_word(none, words[0]);
        assert(none + words[0] =~= words[0]);
        assert(words.drop_last() =~= Seq::<Seq<char>>::empty());
    } else {
        let head = words.drop_last();
        assert forall|i: int| 0 <= i < head.len() implies is_plain_word(#[trigger] head[i]) by {
            assert(head[i] == words[i]);
        }
        lemma_scan_spaced(head);
        assert(is_plain_word(head[head.len() - 1]));
        lemma_scan_push(spaced(head), ' ');
        assert(head.drop_last().push(head.last()) =~= head);
        lemma_scan_word(spaced(head).push(' '), words.last());
    }
}

/// Splitting a line undoes joining words with spaces.
pub proof fn a_line_of_words_is_split_into_them(words: Seq<Seq<char>>)
    requires
        forall|i: int| 0 <= i < words.len() ==> is_plain_word(#[trigger] words[i]),
    ensures
        tokens_of(spaced(words)) == Some(words),
{
    if words.len() == 0 {
        assert(words =~= Seq::<Seq<char>>::empty());
    } else {
        lemma_scan_spaced(words);
        assert(is_plain_word(words[words.len() - 1]));
        assert(words.drop_last().push(words.last()) =~= words);
    }
}

/// Whether a line of a flat file says nothing about the cluster: it is empty, a comment
/// or indented, or it is a directive of the daemon or of a tree, without quotes.
pub open spec fn says_nothing(line: Seq<char>) -> bool {
    ||| line.len() == 0
    ||| line[0] == '#'
    ||| text::is_white_space(line[0])
    ||| is_unquoted(line) && concerns_others(first_word(line))
}

/// Whether a text has no quotes.
pub open spec fn is_unquoted(s: Seq<char>) -> bool {
    forall|i: int| 0 <= i < s.len() ==> (#[trigger] s[i]) != '"' && s[i] != '\''
}

/// Whether a directive concerns the daemon or a tree, and not the cluster.
pub open spec fn concerns_others(key: Seq<char>) -> bool {
    key == "cluster"@ || is_daemon_word(key)
}

/// No directive that concerns others is one of the cluster's.
proof fn lemma_concerns_others(key: Seq<char>)
    requires
        concerns_others(key),
    ensures
        key != "replicas"@,
        key != "min_writes"@,
        key != "catalog"@,
        key != "read_prefer"@,
        key != "direct_io"@,
        key != "compression"@,
        key != "size_mb"@,
        key != "read_only"@,
        key != "delete_requires_min_writes"@,
        key != "shard"@,
{
    reveal_strlit("replicas");
    reveal_strlit("min_writes");
    reveal_strlit("catalog");
    reveal_strlit("read_prefer");
    reveal_strlit("direct_io");
    reveal_strlit("compression");
    reveal_strlit("size_mb");
    reveal_strlit("read_only");
    reveal_strlit("delete_requires_min_writes");
    reveal_strlit("shard");
    reveal_strlit("cluster");
    reveal_strlit("bucket");
    reveal_strlit("flush_interval");
    reveal_strlit("admin_token");
    reveal_strlit("access_key");
    reveal_strlit("secret_key");
    reveal_strlit("cors_origin");
    reveal_strlit("log_file");
    reveal_strlit("log_buffer_size");
    reveal_strlit("event_socket");
    reveal_strlit("event_secret");
    reveal_strlit("max_readers");
    reveal_strlit("event_source");
    reveal_strlit("catalog_path");
    reveal_strlit("catalog_format");
    reveal_strlit("catalog_flush_interval");
    reveal_strlit("recovery_");
    reveal_strlit("repair_replication_");
    if "recovery_"@.is_prefix_of(key) {
        assert(key[0] == "recovery_"@[0] && key[2] == "recovery_"@[2]);
    }
    if "repair_replication_"@.is_prefix_of(key) {
        assert(key[0] == "repair_replication_"@[0] && key[3] == "repair_replication_"@[3]);
    }
    assert("log_file"@[0] != "replicas"@[0]);
    assert("access_key"@[0] != "min_writes"@[0]);
    assert("secret_key"@[0] != "min_writes"@[0]);
    assert("cluster"@[1] != "catalog"@[1]);
    assert("cluster"@[0] != "size_mb"@[0]);
    assert("admin_token"@[0] != "read_prefer"@[0]);
    assert("cors_origin"@[0] != "read_prefer"@[0]);
    assert("max_readers"@[0] != "read_prefer"@[0]);
    assert("admin_token"@[0] != "compression"@[0]);
    assert("cors_origin"@[2] != "compression"@[2]);
    assert("max_readers"@[0] != "compression"@[0]);
}

/// The options of a raw shard do not depend on the number of the line.
proof fn lemma_raw_options_anywhere(o: RawOptions, tokens: Seq<Seq<char>>, n: nat, m: nat)
    ensures
        raw_options(o, tokens, n) matches Ok(r) ==> raw_options(o, tokens, m) == Ok::<
            RawOptions,
            Seq<char>,
        >(r),
    decreases tokens.len(),
{
    if tokens.len() > 0 {
        if let Ok(next) = raw_option(o, tokens[0], n) {
            lemma_raw_options_anywhere(next, tokens.drop_first(), n, m);
        }
    }
}

proof fn lemma_fs_options_anywhere(read_only: bool, tokens: Seq<Seq<char>>, n: nat, m: nat)
    ensures
        fs_options(read_only, tokens, n) matches Ok(r) ==> fs_options(read_only, tokens, m) == Ok::<
            bool,
            Seq<char>,
        >(r),
    decreases tokens.len(),
{
    if tokens.len() > 0 {
        lemma_fs_options_anywhere(true, tokens.drop_first(), n, m);
    }
}

proof fn lemma_s3_options_anywhere(o: S3Options, tokens: Seq<Seq<char>>, n: nat, m: nat)
    ensures
        s3_options(o, tokens, n) matches Ok(r) ==> s3_options(o, tokens, m) == Ok::<
            S3Options,
            Seq<char>,
        >(r),
    decreases tokens.len(),
{
    if tokens.len() > 0 {
        if let Ok(next) = s3_option(o, tokens[0], n) {
            lemma_s3_options_anywhere(next, tokens.drop_first(), n, m);
        }
    }
}

proof fn lemma_shard_anywhere(tokens: Seq<Seq<char>>, n: nat, m: nat)
    ensures
        shard_tokens(tokens, n) matches Ok(r) ==> shard_tokens(tokens, m) == Ok::<
            ShardSpec,
            Seq<char>,
        >(r),
{
    let start = RawOptions { read_only: false, compression: None, direct_io: None, size_mb: None };
    let rest = tokens.drop_first();
    lemma_raw_options_anywhere(start, rest, n, m);
    lemma_raw_options_anywhere(start, rest.drop_first(), n, m);
    lemma_fs_options_anywhere(false, rest.drop_first(), n, m);
    lemma_s3_options_anywhere(no_s3_options(), rest, n, m);
}

/// The effect of a line that is accepted does not depend on its number.
proof fn lemma_line_anywhere(conf: ClusterSpec, line: Seq<char>, n: nat, m: nat)
    ensures
        flat_line(conf, line, n) matches Ok(c) ==> flat_line(conf, line, m) == Ok::<
            ClusterSpec,
            Seq<char>,
        >(c),
{
    if let Some(tokens) = tokens_of(text::trimmed(line)) {
        lemma_shard_anywhere(tokens.drop_first(), n, m);
    }
}

proof fn lemma_lines_anywhere(conf: ClusterSpec, lines: Seq<Seq<char>>, n: nat, m: nat)
    ensures
        flat_lines(conf, lines, n) matches Ok(c) ==> flat_lines(conf, lines, m) == Ok::<
            ClusterSpec,
            Seq<char>,
        >(c),
    decreases lines.len(),
{
    if lines.len() > 0 {
        lemma_line_anywhere(conf, lines[0], n + 1, m + 1);
        if let Ok(next) = flat_line(conf, lines[0], n + 1) {
            lemma_lines_anywhere(next, lines.drop_first(), n + 1, m + 1);
        }
    }
}

/// The effect of lines one after the other.
proof fn lemma_both_lines(conf: ClusterSpec, a: Seq<Seq<char>>, b: Seq<Seq<char>>, n: nat)
    ensures
        flat_lines(conf, a + b, n) == (match flat_lines(conf, a, n) {
            Ok(c) => flat_lines(c, b, n + a.len()),
            Err(e) => Err(e),
        }),
    decreases a.len(),
{
    if a.len() == 0 {
        assert(a + b =~= b);
    } else {
        assert((a + b).drop_first() =~= a.drop_first() + b);
        if let Ok(next) = flat_line(conf, a[0], n + 1) {
            lemma_both_lines(next, a.drop_first(), b, n + 1);
        }
    }
}

/// The first token of a text without quotes that starts with a word.
proof fn lemma_first_token(w: Seq<char>, rest: Seq<char>)
    requires
        is_plain_word(w),
        is_unquoted(rest),
        rest.len() > 0 ==> text::is_white_space(rest[0]),
    ensures
        scan_line(w + rest).quote is None,
        if rest.len() == 0 {
            scan_line(w + rest) == (Scan { tokens: Seq::empty(), current: w, quote: None })
        } else {
            scan_line(w + rest).tokens.len() > 0 && scan_line(w + rest).tokens[0] == w
        },
    decreases rest.len(),
{
    if rest.len() == 0 {
        let none = Seq::<char>::empty();
        assert(scan_line(none) == (Scan { tokens: Seq::empty(), current: none, quote: None }));
        lemma_scan_word(none, w);
        assert(none + w =~= w);
        assert(w + rest =~= w);
    } else {
        let head = rest.drop_last();
        assert forall|i: int| 0 <= i < head.len() implies (#[trigger] head[i]) != '"' && head[i]
            != '\'' by {
            assert(head[i] == rest[i]);
        }
        lemma_first_token(w, head);
        assert(w + rest =~= (w + head).push(rest.last()));
        lemma_scan_push(w + head, rest.last());
        assert(rest[rest.len() - 1] == rest.last());
        if head.len() == 0 {
            assert(rest.last() == rest[0]);
        }
    }
}

/// The first token of a line without quotes is its first word.
proof fn lemma_first_token_of_line(line: Seq<char>)
    requires
        line.len() > 0,
        !text::is_white_space(line[0]),
        is_unquoted(line),
    ensures
        tokens_of(text::trimmed(line)) matches Some(tokens) && tokens.len() > 0 && tokens[0]
            == first_word(line),
{
    let t = text::trimmed(line);
    let stop = |c: char| text::is_white_space(c);
    let w = first_word(line);
    let k = text::span(line, stop) as int;
    text::lemma_no_leading_space(line);
    text::lemma_trim_end(line);
    text::lemma_span_ends(line, stop);
    assert(w == line.take(k));
    assert(k > 0);
    assert(t.len() >= k) by {
        if t.len() < k {
            assert(!stop(line[t.len() as int]));
        }
    }
    let rest = t.skip(k);
    assert(t =~= w + rest);
    assert forall|i: int| 0 <= i < w.len() implies !text::is_white_space(#[trigger] w[i]) && w[i]
        != '"' && w[i] != '\'' by {
        assert(w[i] == line[i]);
        assert(!stop(line[i]));
    }
    assert forall|i: int| 0 <= i < rest.len() implies (#[trigger] rest[i]) != '"' && rest[i]
        != '\'' by {
        assert(rest[i] == line[i + k]);
    }
    if rest.len() > 0 {
        assert(rest[0] == line[k]);
        assert(stop(line[k]));
    }
    lemma_first_token(w, rest);
}

/// A line that says nothing about the cluster has no effect.
proof fn lemma_says_nothing(conf: ClusterSpec, line: Seq<char>, n: nat)
    requires
        says_nothing(line),
    ensures
        flat_line(conf, line, n) == Ok::<ClusterSpec, Seq<char>>(conf),
{
    if line.len() > 0 && text::is_white_space(line[0]) {
        text::lemma_leading_space(line);
    } else {
        text::lemma_no_leading_space(line);
        text::lemma_trim_end(line);
        if line.len() > 0 {
            let t = text::trimmed(line);
            assert(t.len() > 0) by {
                if t.len() == 0 {
                    assert(text::is_white_space(line[0]));
                }
            }
            assert(t[0] == line[0]);
            if line[0] != '#' {
                lemma_first_token_of_line(line);
                lemma_concerns_others(first_word(line));
            }
        }
    }
}

/// A carriage return at the end of a line has no effect.
proof fn lemma_carriage_return(conf: ClusterSpec, line: Seq<char>, n: nat)
    ensures
        flat_line(conf, text::strip_carriage_return(line), n) == flat_line(conf, line, n),
{
    text::lemma_carriage_return(line);
}

/// Whether a flat file gives a configuration.
pub open spec fn gives(file: Seq<char>, c: ClusterSpec) -> bool {
    cluster_conf(file) == Ok::<ClusterSpec, Seq<char>>(c)
}

/// Whether two flat files give the same configuration, or are both refused.
pub open spec fn same_cluster(a: Seq<char>, b: Seq<char>) -> bool {
    forall|c: ClusterSpec| #[trigger] gives(a, c) <==> gives(b, c)
}

proof fn lemma_same_cluster(a: Seq<char>, b: Seq<char>)
    requires
        flat_lines(empty_cluster(), text::lines_of(a), 0) matches Ok(c) ==> flat_lines(
            empty_cluster(),
            text::lines_of(b),
            0,
        ) == Ok::<ClusterSpec, Seq<char>>(c),
        flat_lines(empty_cluster(), text::lines_of(b), 0) matches Ok(c) ==> flat_lines(
            empty_cluster(),
            text::lines_of(a),
            0,
        ) == Ok::<ClusterSpec, Seq<char>>(c),
    ensures
        same_cluster(a, b),
{
}

proof fn lemma_extra_line(
    conf: ClusterSpec,
    before: Seq<Seq<char>>,
    line: Seq<char>,
    after: Seq<Seq<char>>,
)
    requires
        says_nothing(line),
    ensures
        flat_lines(conf, before + after, 0) matches Ok(c) ==> flat_lines(
            conf,
            before + seq![line] + after,
            0,
        ) == Ok::<ClusterSpec, Seq<char>>(c),
        flat_lines(conf, before + seq![line] + after, 0) matches Ok(c) ==> flat_lines(
            conf,
            before + after,
            0,
        ) == Ok::<ClusterSpec, Seq<char>>(c),
{
    let n = before.len();
    lemma_both_lines(conf, before, after, 0);
    assert(before + seq![line] + after =~= before + (seq![line] + after));
    lemma_both_lines(conf, before, seq![line] + after, 0);
    if let Ok(mid) = flat_lines(conf, before, 0) {
        assert((seq![line] + after).drop_first() =~= after);
        lemma_says_nothing(mid, line, n + 1);
        lemma_lines_anywhere(mid, after, n, n + 1);
        lemma_lines_anywhere(mid, after, n + 1, n);
    }
}

/// A line of a flat file that says nothing about the cluster can stand anywhere among
/// the lines without changing the configuration, or whether there is one.
pub proof fn a_line_that_says_nothing_changes_nothing(
    before: Seq<char>,
    line: Seq<char>,
    after: Seq<char>,
)
    requires
        text::is_terminated(before),
        !line.contains('\n'),
        says_nothing(line),
    ensures
        same_cluster(before + after, before + line.push('\n') + after),
{
    let a = text::lines_of(before);
    let b = text::lines_of(after);
    let bare = text::strip_carriage_return(line);
    text::lemma_lines_of_both(before, after);
    text::lemma_lines_of_both(before, line.push('\n'));
    text::lemma_lines_of_both(before + line.push('\n'), after);
    text::lemma_one_line(line);
    lemma_bare_says_nothing(line);
    lemma_extra_line(empty_cluster(), a, bare, b);
    lemma_same_cluster(before + after, before + line.push('\n') + after);
}

/// The same of a last line that is not terminated, after a last line that was not.
pub proof fn a_last_line_that_says_nothing_changes_nothing(file: Seq<char>, line: Seq<char>)
    requires
        !text::is_terminated(file),
        !line.contains('\n'),
        says_nothing(line),
    ensures
        same_cluster(file, file.push('\n') + line),
{
    let conf = empty_cluster();
    let lines = text::lines_of(file);
    let last = lines.last();
    let head = lines.drop_last();
    let bare = text::strip_carriage_return(last);
    let none = Seq::<Seq<char>>::empty();
    text::lemma_terminating_the_last_line(file);
    text::lemma_lines_of_both(file.push('\n'), line);
    text::lemma_one_line(line);
    assert(lines =~= head + seq![last]);
    assert(head.push(bare) =~= head + seq![bare]);
    lemma_both_lines(conf, head, seq![last], 0);
    lemma_both_lines(conf, head, seq![bare], 0);
    if let Ok(mid) = flat_lines(conf, head, 0) {
        lemma_carriage_return(mid, last, head.len() + 1);
        assert(seq![last].drop_first() =~= none);
        assert(seq![bare].drop_first() =~= none);
        assert(flat_lines(mid, seq![last], head.len()) == flat_lines(mid, seq![bare], head.len()));
    }
    if line.len() > 0 {
        lemma_extra_line(conf, head.push(bare), line, none);
        assert(head.push(bare) + none =~= head.push(bare));
        assert(head.push(bare) + seq![line] + none =~= head.push(bare) + seq![line]);
    } else {
        assert(head.push(bare) + none =~= head.push(bare));
    }
    lemma_same_cluster(file, file.push('\n') + line);
}

proof fn lemma_bare_says_nothing(line: Seq<char>)
    requires
        says_nothing(line),
    ensures
        says_nothing(text::strip_carriage_return(line)),
{
    if line.len() > 0 && line.last() == '\r' {
        let bare = line.drop_last();
        if bare.len() > 0 && !text::is_white_space(line[0]) && line[0] != '#' {
            let stop = |c: char| text::is_white_space(c);
            let k = text::span(line, stop) as int;
            text::lemma_span_ends(line, stop);
            text::lemma_no_leading_space(line);
            text::lemma_no_leading_space(bare);
            assert(stop(line[line.len() - 1]));
            assert(k < line.len());
            assert forall|i: int| 0 <= i < k implies !stop(#[trigger] bare[i]) by {
                assert(bare[i] == line[i]);
            }
            if k < bare.len() {
                assert(bare[k] == line[k]);
            }
            text::lemma_span(bare, stop, k);
            assert(first_word(bare) =~= first_word(line));
            assert forall|i: int| 0 <= i < bare.len() implies (#[trigger] bare[i]) != '"' && bare[i]
                != '\'' by {
                assert(bare[i] == line[i]);
            }
        }
    }
}

/// Whether the numbers of a flat configuration make sense so far.
spec fn sound_draft(c: ClusterSpec) -> bool {
    &&& c.replicas >= 1
    &&& c.min_writes matches Some(w) ==> w >= 1
    &&& c.read_prefer matches Some(v) ==> is_read_prefer(v)
}

proof fn lemma_flat_lines_sound(conf: ClusterSpec, lines: Seq<Seq<char>>, n: nat)
    requires
        sound_draft(conf),
    ensures
        flat_lines(conf, lines, n) matches Ok(c) ==> sound_draft(c),
    decreases lines.len(),
{
    if lines.len() > 0 {
        if let Ok(next) = flat_line(conf, lines[0], n + 1) {
            lemma_flat_lines_sound(next, lines.drop_first(), n + 1);
        }
    }
}

/// A flat configuration that is accepted has a shard and keeps a copy, needs no more
/// writes than copies and at least one, and reads in a way that is known.
pub proof fn an_accepted_cluster_makes_sense(file: Seq<char>)
    ensures
        cluster_conf(file) matches Ok(c) ==> {
            &&& c.shards.len() >= 1
            &&& c.replicas >= 1
            &&& c.min_writes matches Some(w) ==> 1 <= w <= c.replicas
            &&& c.read_prefer matches Some(v) ==> is_read_prefer(v)
        },
{
    lemma_flat_lines_sound(empty_cluster(), text::lines_of(file), 0);
}

/// The names of the nodes among some shards.
pub open spec fn node_names(shards: Seq<ShardSpec>) -> Seq<Seq<char>>
    decreases shards.len(),
{
    if shards.len() == 0 {
        Seq::empty()
    } else {
        let head = node_names(shards.drop_last());
        match shards.last() {
            ShardSpec::Node(name) => head.push(name),
            _ => head,
        }
    }
}

/// Whether a tree makes sense: each node keeps a copy, needs no more writes than copies
/// and at least one, and has its child nodes among its shards, in order.
pub open spec fn sound_tree(node: TreeSpec) -> bool
    decreases node,
{
    &&& node.replication_factor >= 1
    &&& node.min_writes matches Some(w) ==> 1 <= w <= node.replication_factor
    &&& node_names(node.shards) == node.children.map_values(|c: TreeSpec| c.name)
    &&& sound_trees(node.children)
}

/// Whether all trees of a list make sense.
pub open spec fn sound_trees(nodes: Seq<TreeSpec>) -> bool
    decreases nodes,
{
    nodes.len() == 0 || (sound_tree(nodes.last()) && sound_trees(nodes.drop_last()))
}

proof fn lemma_node_options_sound(h: NodeHeader, tokens: Seq<Seq<char>>)
    requires
        h.rf >= 1,
        h.min_writes matches Some(w) ==> w >= 1,
    ensures
        node_options(h, tokens) matches Ok(r) ==> r.rf >= 1 && (r.min_writes matches Some(w)
            ==> w >= 1),
    decreases tokens.len(),
{
    if tokens.len() > 0 {
        if let Ok(next) = node_option(h, tokens[0]) {
            lemma_node_options_sound(next, tokens.drop_first());
        }
    }
}

proof fn lemma_node_header_sound(line: Seq<char>)
    ensures
        node_header(line) matches Ok(h) ==> h.rf >= 1 && (h.min_writes matches Some(w) ==> 1 <= w
            <= h.rf),
{
    if let Some(tokens) = tokens_of(line) {
        if tokens.len() > 0 {
            let start = NodeHeader { name: tokens[0], rf: 1, min_writes: None };
            lemma_node_options_sound(start, tokens.drop_first());
        }
    }
}

proof fn lemma_node_sound(lines: Seq<TreeLine>, pos: nat)
    ensures
        node_at(lines, pos) matches Ok(node) ==> sound_tree(node),
    decreases lines.len() - pos, 0nat,
{
    if pos < lines.len() {
        lemma_node_header_sound(lines[pos as int].line);
        let shards = Seq::<ShardSpec>::empty();
        let children = Seq::<TreeSpec>::empty();
        assert(node_names(shards) =~= children.map_values(|c: TreeSpec| c.name));
        lemma_members_sound(lines, pos + 1, block_end(lines, pos), shards, children);
    }
}

proof fn lemma_members_sound(
    lines: Seq<TreeLine>,
    pos: nat,
    end: nat,
    shards: Seq<ShardSpec>,
    children: Seq<TreeSpec>,
)
    requires
        node_names(shards) == children.map_values(|c: TreeSpec| c.name),
        sound_trees(children),
    ensures
        members(lines, pos, end, shards, children) matches Ok((all, nodes)) ==> node_names(all)
            == nodes.map_values(|c: TreeSpec| c.name) && sound_trees(nodes),
    decreases lines.len() - pos, 1nat,
{
    if pos < end && pos < lines.len() {
        if is_node_line(lines[pos as int].line) {
            lemma_deeper_bound(lines.skip(pos as int + 1), lines[pos as int].indent);
            lemma_node_sound(lines, pos);
            if let Ok(child) = node_at(lines, pos) {
                let more = shards.push(ShardSpec::Node(child.name));
                let nodes = children.push(child);
                assert(more.drop_last() =~= shards);
                assert(nodes.drop_last() =~= children);
                assert(node_names(more) =~= nodes.map_values(|c: TreeSpec| c.name));
                lemma_members_sound(lines, block_end(lines, pos), end, more, nodes);
            }
        } else if let Ok(shard) = tree_shard(lines[pos as int].line) {
            let more = shards.push(shard);
            assert(more.drop_last() =~= shards);
            assert(!(shard is Node));
            lemma_members_sound(lines, pos + 1, end, more, children);
        }
    }
}

/// In a tree that is accepted every node makes sense.
pub proof fn an_accepted_tree_makes_sense(file: Seq<char>)
    ensures
        tree_conf(file) matches Ok(c) ==> sound_tree(c.root),
{
    if let Ok(d) = tree_file_lines(empty_tree(), text::lines_of(file)) {
        lemma_node_sound(d.nodes, 0);
    }
}

/// The words that a flat file has for the cluster differ from each other.
proof fn lemma_words_differ()
    ensures
        "catalog"@ != "size_mb"@,
        "read_prefer"@ != "compression"@,
        "direct_io"@ != "read_only"@,
        "replicas"@.len() == 8,
        "min_writes"@.len() == 10,
        "catalog"@.len() == 7,
        "read_prefer"@.len() == 11,
        "direct_io"@.len() == 9,
        "compression"@.len() == 11,
        "size_mb"@.len() == 7,
        "read_only"@.len() == 9,
        "delete_requires_min_writes"@.len() == 26,
        "shard"@.len() == 5,
{
    reveal_strlit("replicas");
    reveal_strlit("min_writes");
    reveal_strlit("catalog");
    reveal_strlit("read_prefer");
    reveal_strlit("direct_io");
    reveal_strlit("compression");
    reveal_strlit("size_mb");
    reveal_strlit("read_only");
    reveal_strlit("delete_requires_min_writes");
    reveal_strlit("shard");
    assert("catalog"@[0] != "size_mb"@[0]);
    assert("read_prefer"@[0] != "compression"@[0]);
    assert("direct_io"@[0] != "read_only"@[0]);
}

/// A directive with a number sets the number that it names, and nothing else. Neither
/// zero nor what is no number is accepted, nor no value at all.
pub proof fn a_directive_sets_the_number_that_it_names(
    conf: ClusterSpec,
    line: Seq<char>,
    n: nat,
    value: Seq<char>,
    k: usize,
    size: u64,
)
    requires
        k >= 1,
    ensures
        directive(conf, seq!["replicas"@, text::decimal(k as nat)], line, n) == Ok::<
            ClusterSpec,
            Seq<char>,
        >(ClusterSpec { replicas: k, ..conf }),
        directive(conf, seq!["min_writes"@, text::decimal(k as nat)], line, n) == Ok::<
            ClusterSpec,
            Seq<char>,
        >(ClusterSpec { min_writes: Some(k), ..conf }),
        directive(conf, seq!["size_mb"@, text::decimal(size as nat)], line, n) == Ok::<
            ClusterSpec,
            Seq<char>,
        >(ClusterSpec { size_mb: Some(size), ..conf }),
        directive(conf, seq!["replicas"@, text::decimal(0)], line, n) is Err,
        directive(conf, seq!["min_writes"@, text::decimal(0)], line, n) is Err,
        text::parsed_number(value, usize::MAX as nat) is None ==> directive(
            conf,
            seq!["replicas"@, value],
            line,
            n,
        ) is Err && directive(conf, seq!["min_writes"@, value], line, n) is Err,
        text::parsed_number(value, u64::MAX as nat) is None ==> directive(
            conf,
            seq!["size_mb"@, value],
            line,
            n,
        ) is Err,
        directive(conf, seq!["replicas"@], line, n) is Err,
        directive(conf, seq!["min_writes"@], line, n) is Err,
        directive(conf, seq!["size_mb"@], line, n) is Err,
{
    lemma_words_differ();
    text::a_number_is_read_back_from_its_digits(k as nat, usize::MAX as nat, value);
    text::a_number_is_read_back_from_its_digits(0, usize::MAX as nat, value);
    text::a_number_is_read_back_from_its_digits(size as nat, u64::MAX as nat, value);
}

/// A directive with a text sets what it names, and nothing else. A read preference must
/// be one of the two that there are.
pub proof fn a_directive_sets_the_text_that_it_names(
    conf: ClusterSpec,
    line: Seq<char>,
    n: nat,
    value: Seq<char>,
)
    ensures
        directive(conf, seq!["catalog"@, value], line, n) == Ok::<ClusterSpec, Seq<char>>(
            ClusterSpec { catalog: Some(value), ..conf },
        ),
        directive(conf, seq!["compression"@, value], line, n) == Ok::<ClusterSpec, Seq<char>>(
            ClusterSpec { compression: Some(value), ..conf },
        ),
        value == "ordered"@ || value == "round-robin"@ ==> directive(
            conf,
            seq!["read_prefer"@, value],
            line,
            n,
        ) == Ok::<ClusterSpec, Seq<char>>(ClusterSpec { read_prefer: Some(value), ..conf }),
        value != "ordered"@ && value != "round-robin"@ ==> directive(
            conf,
            seq!["read_prefer"@, value],
            line,
            n,
        ) is Err,
        directive(conf, seq!["catalog"@], line, n) is Err,
        directive(conf, seq!["compression"@], line, n) is Err,
        directive(conf, seq!["read_prefer"@], line, n) is Err,
{
    lemma_words_differ();
}

/// A switch that stands alone is on. With a value it is on exactly if that is `true` or
/// `1`. It sets what it names, and nothing else.
pub proof fn a_switch_is_on_if_it_stands_alone(
    conf: ClusterSpec,
    line: Seq<char>,
    n: nat,
    value: Seq<char>,
)
    ensures
        ({
            let on = value == "true"@ || value == "1"@;
            &&& directive(conf, seq!["direct_io"@], line, n) == Ok::<ClusterSpec, Seq<char>>(
                ClusterSpec { direct_io: true, ..conf },
            )
            &&& directive(conf, seq!["read_only"@], line, n) == Ok::<ClusterSpec, Seq<char>>(
                ClusterSpec { read_only: true, ..conf },
            )
            &&& directive(conf, seq!["delete_requires_min_writes"@], line, n) == Ok::<
                ClusterSpec,
                Seq<char>,
            >(ClusterSpec { delete_requires_min_writes: true, ..conf })
            &&& directive(conf, seq!["direct_io"@, value], line, n) == Ok::<ClusterSpec, Seq<char>>(
                ClusterSpec { direct_io: on, ..conf },
            )
            &&& directive(conf, seq!["read_only"@, value], line, n) == Ok::<ClusterSpec, Seq<char>>(
                ClusterSpec { read_only: on, ..conf },
            )
            &&& directive(conf, seq!["delete_requires_min_writes"@, value], line, n) == Ok::<
                ClusterSpec,
                Seq<char>,
            >(ClusterSpec { delete_requires_min_writes: on, ..conf })
        }),
{
    lemma_words_differ();
}

/// A shard line adds the shard that it describes after those before, or is refused. A
/// directive that is none of a cluster, of the daemon or of a tree is refused.
pub proof fn a_shard_line_adds_its_shard(
    conf: ClusterSpec,
    tokens: Seq<Seq<char>>,
    line: Seq<char>,
    n: nat,
    key: Seq<char>,
)
    ensures
        ({
            let r = directive(conf, seq!["shard"@] + tokens, line, n);
            &&& shard_tokens(tokens, n) matches Ok(shard) ==> r == Ok::<ClusterSpec, Seq<char>>(
                ClusterSpec { shards: conf.shards.push(shard), ..conf },
            )
            &&& shard_tokens(tokens, n) is Err ==> r is Err
        }),
        concerns_others(key) ==> directive(conf, seq![key] + tokens, line, n) == Ok::<
            ClusterSpec,
            Seq<char>,
        >(conf),
        directive(conf, seq![key] + tokens, line, n) is Ok ==> concerns_others(key)
            || text::has_substring(line, "rf="@) || key == "replicas"@ || key == "min_writes"@
            || key == "catalog"@ || key == "read_prefer"@ || key == "direct_io"@ || key
            == "compression"@ || key == "size_mb"@ || key == "read_only"@ || key
            == "delete_requires_min_writes"@ || key == "shard"@,
{
    lemma_words_differ();
    let all = seq!["shard"@] + tokens;
    assert(all[0] == "shard"@);
    assert(all.drop_first() =~= tokens);
    assert((seq![key] + tokens)[0] == key);
    if concerns_others(key) {
        lemma_concerns_others(key);
    }
}

pub proof fn lemma_after(prefix: Seq<char>, value: Seq<char>)
    ensures
        text::after_prefix(prefix + value, prefix) == Some(value),
{
    assert(prefix.is_prefix_of(prefix + value)) by {
        assert((prefix + value).subrange(0, prefix.len() as int) =~= prefix);
    }
    assert((prefix + value).skip(prefix.len() as int) =~= value);
}

pub proof fn lemma_not_after(s: Seq<char>, prefix: Seq<char>, i: int)
    requires
        0 <= i < prefix.len(),
        i >= s.len() || s[i] != prefix[i],
    ensures
        text::after_prefix(s, prefix) is None,
{
    if prefix.is_prefix_of(s) {
        assert(s.subrange(0, prefix.len() as int)[i] == prefix[i]);
    }
}

/// A shard line names its type, or is a bare path of a raw shard. A path and a root may be
/// written with their names.
pub proof fn a_shard_is_of_the_type_that_is_named(path: Seq<char>, line: nat)
    ensures
        shard_tokens(Seq::empty(), line) is Err,
        shard_tokens(seq!["mem"@], line) == Ok::<ShardSpec, Seq<char>>(ShardSpec::Mem),
        shard_tokens(seq!["raw"@], line) is Err,
        shard_tokens(seq!["fs"@], line) is Err,
        shard_tokens(seq!["s3"@], line) is Err,
        shard_tokens(seq!["raw"@, "path="@ + path], line) == Ok::<ShardSpec, Seq<char>>(
            ShardSpec::Raw {
                path,
                read_only: false,
                compression: None,
                direct_io: None,
                size_mb: None,
            },
        ),
        shard_tokens(seq!["fs"@, "root="@ + path], line) == Ok::<ShardSpec, Seq<char>>(
            ShardSpec::Fs { root: path, read_only: false },
        ),
        !"path="@.is_prefix_of(path) ==> shard_tokens(seq!["raw"@, path], line) == shard_tokens(
            seq!["raw"@, "path="@ + path],
            line,
        ),
        !"root="@.is_prefix_of(path) ==> shard_tokens(seq!["fs"@, path], line) == shard_tokens(
            seq!["fs"@, "root="@ + path],
            line,
        ),
        path != "raw"@ && path != "fs"@ && path != "s3"@ && path != "mem"@ ==> shard_tokens(
            seq![path],
            line,
        ) == shard_tokens(seq!["raw"@, path], line),
{
    reveal_strlit("raw");
    reveal_strlit("fs");
    reveal_strlit("s3");
    reveal_strlit("mem");
    assert("raw"@[0] != "mem"@[0]);
    assert("fs"@[0] != "s3"@[0]);
    let none = Seq::<Seq<char>>::empty();
    assert(seq!["mem"@].drop_first() =~= none);
    assert(seq!["raw"@].drop_first() =~= none);
    assert(seq!["fs"@].drop_first() =~= none);
    assert(seq!["s3"@].drop_first() =~= none);
    lemma_after("path="@, path);
    lemma_after("root="@, path);
    assert(seq!["raw"@, "path="@ + path].drop_first() =~= seq!["path="@ + path]);
    assert(seq!["fs"@, "root="@ + path].drop_first() =~= seq!["root="@ + path]);
    assert(seq!["raw"@, path].drop_first() =~= seq![path]);
    assert(seq!["fs"@, path].drop_first() =~= seq![path]);
    assert(seq!["path="@ + path].drop_first() =~= none);
    assert(seq!["root="@ + path].drop_first() =~= none);
    assert(seq![path].drop_first() =~= none);
    assert(s3_options(no_s3_options(), none, line) == Ok::<S3Options, Seq<char>>(no_s3_options()));
}

/// An option of a raw shard sets what it names, and nothing else.
pub proof fn an_option_of_a_raw_shard_sets_what_it_names(
    o: RawOptions,
    value: Seq<char>,
    size: u64,
    line: nat,
)
    ensures
        raw_option(o, "readonly"@, line) == Ok::<RawOptions, Seq<char>>(
            RawOptions { read_only: true, ..o },
        ),
        raw_option(o, "read_only"@, line) == raw_option(o, "readonly"@, line),
        raw_option(o, "read-only"@, line) == raw_option(o, "readonly"@, line),
        raw_option(o, "direct_io"@, line) == Ok::<RawOptions, Seq<char>>(
            RawOptions { direct_io: Some(true), ..o },
        ),
        raw_option(o, "direct-io"@, line) == raw_option(o, "direct_io"@, line),
        raw_option(o, "compression="@ + value, line) == Ok::<RawOptions, Seq<char>>(
            RawOptions { compression: Some(value), ..o },
        ),
        raw_option(o, "size_mb="@ + text::decimal(size as nat), line) == Ok::<
            RawOptions,
            Seq<char>,
        >(RawOptions { size_mb: Some(size), ..o }),
        raw_option(o, "direct_io="@ + value, line) == Ok::<RawOptions, Seq<char>>(
            RawOptions { direct_io: Some(value == "true"@ || value == "1"@), ..o },
        ),
{
    reveal_strlit("readonly");
    reveal_strlit("read_only");
    reveal_strlit("read-only");
    reveal_strlit("direct_io");
    reveal_strlit("direct-io");
    reveal_strlit("compression=");
    reveal_strlit("size_mb=");
    reveal_strlit("size-mb=");
    reveal_strlit("direct_io=");
    reveal_strlit("direct-io=");
    let c = "compression="@ + value;
    let m = "size_mb="@ + text::decimal(size as nat);
    let d = "direct_io="@ + value;
    lemma_after("compression="@, value);
    lemma_after("size_mb="@, text::decimal(size as nat));
    lemma_after("direct_io="@, value);
    assert(c[0] == 'c' && m[0] == 's' && d[0] == 'd');
    assert("readonly"@[0] == 'r' && "read_only"@[0] == 'r' && "read-only"@[0] == 'r');
    assert("direct_io"@[0] == 'd' && "direct-io"@[0] == 'd');
    assert(d.len() > 9 && "direct_io"@.len() == 9 && "direct-io"@.len() == 9);
    lemma_not_after(m, "compression="@, 0);
    lemma_not_after(d, "compression="@, 0);
    lemma_not_after(d, "size_mb="@, 0);
    lemma_not_after(d, "size-mb="@, 0);
    text::a_number_is_read_back_from_its_digits(size as nat, u64::MAX as nat, value);
}

/// An option of an s3 shard sets what it names, and nothing else.
pub proof fn an_option_of_an_s3_shard_sets_what_it_names(
    o: S3Options,
    value: Seq<char>,
    line: nat,
)
    ensures
        s3_option(o, "endpoint="@ + value, line) == Ok::<S3Options, Seq<char>>(
            S3Options { endpoint: value, ..o },
        ),
        s3_option(o, "bucket="@ + value, line) == Ok::<S3Options, Seq<char>>(
            S3Options { bucket: value, ..o },
        ),
        s3_option(o, "region="@ + value, line) == Ok::<S3Options, Seq<char>>(
            S3Options { region: Some(value), ..o },
        ),
        s3_option(o, "access_key="@ + value, line) == Ok::<S3Options, Seq<char>>(
            S3Options { access_key: Some(value), ..o },
        ),
        s3_option(o, "secret_key="@ + value, line) == Ok::<S3Options, Seq<char>>(
            S3Options { secret_key: Some(value), ..o },
        ),
        s3_option(o, "path_style"@, line) == Ok::<S3Options, Seq<char>>(
            S3Options { path_style: true, ..o },
        ),
{
    reveal_strlit("endpoint=");
    reveal_strlit("bucket=");
    reveal_strlit("region=");
    reveal_strlit("access_key=");
    reveal_strlit("secret_key=");
    reveal_strlit("path_style");
    let b = "bucket="@ + value;
    let r = "region="@ + value;
    let a = "access_key="@ + value;
    let s = "secret_key="@ + value;
    let p = "path_style"@;
    lemma_after("endpoint="@, value);
    lemma_after("bucket="@, value);
    lemma_after("region="@, value);
    lemma_after("access_key="@, value);
    lemma_after("secret_key="@, value);
    assert(b[0] == 'b' && r[0] == 'r' && a[0] == 'a' && s[0] == 's' && p[0] == 'p');
    lemma_not_after(b, "endpoint="@, 0);
    lemma_not_after(r, "endpoint="@, 0);
    lemma_not_after(r, "bucket="@, 0);
    lemma_not_after(a, "endpoint="@, 0);
    lemma_not_after(a, "bucket="@, 0);
    lemma_not_after(a, "region="@, 0);
    lemma_not_after(s, "endpoint="@, 0);
    lemma_not_after(s, "bucket="@, 0);
    lemma_not_after(s, "region="@, 0);
    lemma_not_after(s, "access_key="@, 0);
    lemma_not_after(p, "endpoint="@, 0);
    lemma_not_after(p, "bucket="@, 0);
    lemma_not_after(p, "region="@, 0);
    lemma_not_after(p, "access_key="@, 0);
    lemma_not_after(p, "secret_key="@, 0);
}

/// An s3 shard is accepted only with an endpoint and a bucket, and then has the options
/// that its line gives.
pub proof fn an_s3_shard_needs_an_endpoint_and_a_bucket(tokens: Seq<Seq<char>>, line: nat)
    ensures
        s3_shard(tokens, line) is Ok <==> (s3_options(no_s3_options(), tokens, line) matches Ok(o)
            && o.endpoint.len() > 0 && o.bucket.len() > 0),
        s3_shard(tokens, line) matches Ok(shard) ==> (s3_options(
            no_s3_options(),
            tokens,
            line,
        ) matches Ok(o) && shard == (ShardSpec::S3 {
            endpoint: o.endpoint,
            bucket: o.bucket,
            region: o.region,
            access_key: o.access_key,
            secret_key: o.secret_key,
            path_style: o.path_style,
        })),
{
}

/// The options of a shard are taken one after the other, and the first that is not known
/// is an error.
pub proof fn options_are_taken_one_after_the_other(
    o: RawOptions,
    p: S3Options,
    tokens: Seq<Seq<char>>,
    token: Seq<char>,
    line: nat,
)
    ensures
        raw_options(o, tokens.push(token), line) == match raw_options(o, tokens, line) {
            Ok(q) => raw_option(q, token, line),
            Err(e) => Err(e),
        },
        s3_options(p, tokens.push(token), line) == match s3_options(p, tokens, line) {
            Ok(q) => s3_option(q, token, line),
            Err(e) => Err(e),
        },
    decreases tokens.len(),
{
    let all = tokens.push(token);
    if tokens.len() == 0 {
        assert(all.drop_first() =~= Seq::<Seq<char>>::empty());
        assert(all[0] == token);
        if let Ok(q) = raw_option(o, token, line) {
            assert(raw_options(q, Seq::empty(), line) == Ok::<RawOptions, Seq<char>>(q));
        }
        if let Ok(q) = s3_option(p, token, line) {
            assert(s3_options(q, Seq::empty(), line) == Ok::<S3Options, Seq<char>>(q));
        }
    } else {
        assert(all[0] == tokens[0]);
        assert(all.drop_first() =~= tokens.drop_first().push(token));
        let q = match raw_option(o, tokens[0], line) {
            Ok(q) => q,
            Err(_) => o,
        };
        let r = match s3_option(p, tokens[0], line) {
            Ok(q) => q,
            Err(_) => p,
        };
        options_are_taken_one_after_the_other(q, r, tokens.drop_first(), token, line);
    }
}

/// A flat file is read line by line: what a line more does, it does to what the lines
/// before have given.
pub proof fn a_flat_file_is_read_line_by_line(
    conf: ClusterSpec,
    lines: Seq<Seq<char>>,
    line: Seq<char>,
    n: nat,
)
    ensures
        flat_lines(conf, lines.push(line), n) == match flat_lines(conf, lines, n) {
            Ok(mid) => flat_line(mid, line, n + lines.len() + 1),
            Err(e) => Err(e),
        },
{
    let one = seq![line];
    assert(lines.push(line) =~= lines + one);
    lemma_both_lines(conf, lines, one, n);
    if let Ok(mid) = flat_lines(conf, lines, n) {
        assert(one.drop_first() =~= Seq::<Seq<char>>::empty());
        if let Ok(end) = flat_line(mid, line, n + lines.len() + 1) {
            assert(flat_lines(end, Seq::empty(), n + lines.len() + 1) == Ok::<
                ClusterSpec,
                Seq<char>,
            >(end));
        }
    }
}

/// A cluster starts with one copy, nothing else said, and no shard.
pub proof fn a_file_without_lines_says_nothing()
    ensures
        ({
            let c = empty_cluster();
            &&& c.replicas == 1 && c.min_writes is None && c.catalog is None
            &&& c.read_prefer is None && c.compression is None && c.size_mb is None
            &&& !c.direct_io && !c.read_only && !c.delete_requires_min_writes
            &&& c.shards.len() == 0
        }),
        ({
            let d = empty_tree();
            &&& d.cluster_name.len() == 0 && d.catalog is None && d.read_prefer is None
            &&& d.compression is None && d.size_mb is None && !d.direct_io && !d.read_only
            &&& d.nodes.len() == 0
        }),
{
}

/// A flat configuration is accepted exactly if every line is, there is a shard, and it
/// needs no more writes than copies. What is accepted is what the lines say.
pub proof fn a_flat_file_is_accepted_iff_it_makes_sense(file: Seq<char>)
    ensures
        ({
            let r = flat_lines(empty_cluster(), text::lines_of(file), 0);
            &&& cluster_conf(file) is Ok <==> (r matches Ok(c) && c.shards.len() > 0 && (
            c.min_writes is Some ==> c.min_writes->0 <= c.replicas))
            &&& cluster_conf(file) matches Ok(c) ==> r == Ok::<ClusterSpec, Seq<char>>(c)
        }),
{
}

/// An option of a node sets what it names; what is no option of a node is passed over.
pub proof fn an_option_of_a_node_sets_what_it_names(h: NodeHeader, value: Seq<char>, k: usize)
    requires
        k >= 1,
    ensures
        node_option(h, "rf="@ + text::decimal(k as nat)) == Ok::<NodeHeader, Seq<char>>(
            NodeHeader { rf: k, ..h },
        ),
        node_option(h, "min_writes="@ + text::decimal(k as nat)) == Ok::<NodeHeader, Seq<char>>(
            NodeHeader { min_writes: Some(k), ..h },
        ),
        node_option(h, "rf="@ + text::decimal(0)) is Err,
        node_option(h, "min_writes="@ + text::decimal(0)) is Err,
        text::parsed_number(value, usize::MAX as nat) is None ==> node_option(
            h,
            "rf="@ + value,
        ) is Err && node_option(h, "min_writes="@ + value) is Err,
        !"rf="@.is_prefix_of(value) && !"min_writes="@.is_prefix_of(value) ==> node_option(h, value)
            == Ok::<NodeHeader, Seq<char>>(h),
{
    reveal_strlit("rf=");
    reveal_strlit("min_writes=");
    text::a_number_is_read_back_from_its_digits(k as nat, usize::MAX as nat, value);
    text::a_number_is_read_back_from_its_digits(0, usize::MAX as nat, value);
    lemma_after("rf="@, text::decimal(k as nat));
    lemma_after("rf="@, text::decimal(0));
    lemma_after("rf="@, value);
    lemma_after("min_writes="@, text::decimal(k as nat));
    lemma_after("min_writes="@, text::decimal(0));
    lemma_after("min_writes="@, value);
    lemma_not_after("min_writes="@ + text::decimal(k as nat), "rf="@, 0);
    lemma_not_after("min_writes="@ + text::decimal(0), "rf="@, 0);
    lemma_not_after("min_writes="@ + value, "rf="@, 0);
}

/// The block of a node holds exactly the lines after its own that are indented more than
/// it, up to the first that is not.
pub proof fn a_node_takes_the_lines_under_it(lines: Seq<TreeLine>, pos: nat)
    requires
        pos < lines.len(),
    ensures
        ({
            let end = block_end(lines, pos);
            &&& pos < end <= lines.len()
            &&& forall|i: int|
                pos < i < end ==> (#[trigger] lines[i]).indent > lines[pos as int].indent
            &&& end < lines.len() ==> lines[end as int].indent <= lines[pos as int].indent
        }),
{
    let rest = lines.skip(pos as int + 1);
    let indent = lines[pos as int].indent;
    lemma_deeper_lines(rest, indent);
    assert forall|i: int| pos < i < block_end(lines, pos) implies (#[trigger] lines[i]).indent
        > indent by {
        assert(rest[i - pos - 1] == lines[i]);
    }
    let k = deeper(rest, indent) as int;
    if k < rest.len() {
        assert(rest[k] == lines[pos + 1 + k]);
    }
}

proof fn lemma_deeper_lines(lines: Seq<TreeLine>, indent: nat)
    ensures
        deeper(lines, indent) <= lines.len(),
        forall|i: int| 0 <= i < deeper(lines, indent) ==> (#[trigger] lines[i]).indent > indent,
        deeper(lines, indent) < lines.len() ==> lines[deeper(lines, indent) as int].indent <= indent,
    decreases lines.len(),
{
    if lines.len() > 0 && lines[0].indent > indent {
        let rest = lines.drop_first();
        lemma_deeper_lines(rest, indent);
        assert forall|i: int| 0 <= i < deeper(lines, indent) implies (#[trigger] lines[i]).indent
            > indent by {
            if i > 0 {
                assert(rest[i - 1] == lines[i]);
            }
        }
        let k = deeper(rest, indent) as int;
        if k < rest.len() {
            assert(rest[k] == lines[k + 1]);
        }
    }
}

/// Whether a tree has a node of this name.
pub open spec fn has_node(node: TreeSpec, name: Seq<char>) -> bool
    decreases node,
{
    node.name == name || exists|i: int|
        0 <= i < node.children.len() && has_node(#[trigger] node.children[i], name)
}

/// A node is found by its name exactly if the tree has one of this name. What is found has
/// the name, and is the root if that has it.
pub proof fn a_node_is_found_by_its_name(node: TreeSpec, name: Seq<char>)
    ensures
        find_in(node, name) is Some <==> has_node(node, name),
        find_in(node, name) matches Some(found) ==> found.name == name,
        node.name == name ==> find_in(node, name) == Some(node),
    decreases node,
{
    if node.name != name {
        lemma_found_among(node.children, name);
    }
}

proof fn lemma_found_among(nodes: Seq<TreeSpec>, name: Seq<char>)
    ensures
        find_among(nodes, name) is Some <==> exists|i: int|
            0 <= i < nodes.len() && has_node(#[trigger] nodes[i], name),
        find_among(nodes, name) matches Some(found) ==> found.name == name,
    decreases nodes,
{
    if nodes.len() > 0 {
        a_node_is_found_by_its_name(nodes[0], name);
        let rest = nodes.drop_first();
        lemma_found_among(rest, name);
        if exists|i: int| 0 <= i < nodes.len() && has_node(#[trigger] nodes[i], name) {
            let i = choose|i: int| 0 <= i < nodes.len() && has_node(#[trigger] nodes[i], name);
            if i > 0 {
                assert(rest[i - 1] == nodes[i]);
            }
        }
        if exists|i: int| 0 <= i < rest.len() && has_node(#[trigger] rest[i], name) {
            let i = choose|i: int| 0 <= i < rest.len() && has_node(#[trigger] rest[i], name);
            assert(nodes[i + 1] == rest[i]);
        }
    }
}

/// A flat file stands for a tree of one node, which keeps as many copies, needs as many
/// writes and has the same shards, with the same defaults. A file that has the header of
/// a node is read as a tree.
pub proof fn a_flat_file_is_a_tree_of_one_node(file: Seq<char>)
    ensures
        has_tree_form(file) ==> auto_conf(file) == tree_conf(file),
        !has_tree_form(file) ==> (auto_conf(file) is Ok <==> cluster_conf(file) is Ok),
        !has_tree_form(file) ==> (cluster_conf(file) matches Ok(c) ==> (auto_conf(file) matches Ok(t)
            && t.root.replication_factor == c.replicas && t.root.min_writes == c.min_writes
            && t.root.shards == c.shards && t.root.children.len() == 0 && t.catalog == c.catalog
            && t.read_prefer == c.read_prefer && t.compression == c.compression && t.direct_io
            == c.direct_io && t.size_mb == c.size_mb && t.read_only == c.read_only)),
{
}

} // verus!
