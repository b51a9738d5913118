//! What the commands decide: which one is asked for, what a configuration is worth, and
//! whether the copies of an object agree.

use vstd::prelude::*;
use vstd::string::*;
use crate::balance;
use crate::catalog;
use crate::config;
use crate::config::{is_tree_config, parse_cluster_conf, parse_tree_conf, ClusterConf, ShardConf};
use crate::diagnostics;
use crate::diagnostics::{diagnose_tree, ClusterDiag};
use crate::digest;
use crate::digest::{checksum_string, hex};
use crate::placement;
use crate::store;
use crate::store::ShardedObjectStore;
use crate::string_map;
use crate::string_map::StringMap;
use crate::text;
use crate::text::{number, str_eq};

verus! {

// -- Which command ----------------------------------------------------------

/// A command of the command line.
#[derive(Debug, Clone, Copy, PartialEq, Eq, Structural)]
pub enum Command {
    Version,
    CheckConfig,
    Format,
    Info,
    List,
    Get,
    Put,
    Delete,
    Verify,
    CrossVerify,
    Health,
    AddShard,
    RemoveShard,
    RepairReplication,
    Report,
    Vacuum,
    ListDeleted,
}

/// The command of a name.
pub open spec fn command_of(name: Seq<char>) -> Option<Command> {
    if name == "--version"@ || name == "-V"@ || name == "version"@ {
        Some(Command::Version)
    } else if name == "check-config"@ {
        Some(Command::CheckConfig)
    } else if name == "format"@ {
        Some(Command::Format)
    } else if name == "info"@ {
        Some(Command::Info)
    } else if name == "list"@ || name == "ls"@ {
        Some(Command::List)
    } else if name == "get"@ {
        Some(Command::Get)
    } else if name == "put"@ {
        Some(Command::Put)
    } else if name == "delete"@ || name == "del"@ {
        Some(Command::Delete)
    } else if name == "verify"@ {
        Some(Command::Verify)
    } else if name == "cross-verify"@ {
        Some(Command::CrossVerify)
    } else if name == "health"@ {
        Some(Command::Health)
    } else if name == "add-shard"@ {
        Some(Command::AddShard)
    } else if name == "remove-shard"@ {
        Some(Command::RemoveShard)
    } else if name == "repair-replication"@ {
        Some(Command::RepairReplication)
    } else if name == "report"@ {
        Some(Command::Report)
    } else if name == "vacuum"@ {
        Some(Command::Vacuum)
    } else if name == "list-deleted"@ {
        Some(Command::ListDeleted)
    } else {
        None
    }
}

impl Command {
    /// The command of a name.
    pub fn parse(name: &str) -> (r: Option<Command>)
        ensures
            r == command_of(name@),
    {
        if str_eq(name, "--version") || str_eq(name, "-V") || str_eq(name, "version") {
            Some(Command::Version)
        } else if str_eq(name, "check-config") {
            Some(Command::CheckConfig)
        } else if str_eq(name, "format") {
            Some(Command::Format)
        } else if str_eq(name, "info") {
            Some(Command::Info)
        } else if str_eq(name, "list") || str_eq(name, "ls") {
            Some(Command::List)
        } else if str_eq(name, "get") {
            Some(Command::Get)
        } else if str_eq(name, "put") {
            Some(Command::Put)
        } else if str_eq(name, "delete") || str_eq(name, "del") {
            Some(Command::Delete)
        } else if str_eq(name, "verify") {
            Some(Command::Verify)
        } else if str_eq(name, "cross-verify") {
            Some(Command::CrossVerify)
        } else if str_eq(name, "health") {
            Some(Command::Health)
        } else if str_eq(name, "add-shard") {
            Some(Command::AddShard)
        } else if str_eq(name, "remove-shard") {
            Some(Command::RemoveShard)
        } else if str_eq(name, "repair-replication") {
            Some(Command::RepairReplication)
        } else if str_eq(name, "report") {
            Some(Command::Report)
        } else if str_eq(name, "vacuum") {
            Some(Command::Vacuum)
        } else if str_eq(name, "list-deleted") {
            Some(Command::ListDeleted)
        } else {
            None
        }
    }
}

// -- Checking a configuration -----------------------------------------------

/// The path of the configuration to check, or what is wrong with the arguments.
pub open spec fn check_path(found: Option<Seq<char>>, args: Seq<Seq<char>>) -> Result<
    Seq<char>,
    Seq<char>,
>
    decreases args.len(),
{
    if args.len() == 0 {
        match found {
            Some(path) => Ok(path),
            None => Err("check-config requires --config <path>"@),
        }
    } else if args[0] != "--config"@ {
        Err("unknown arg for check-config: "@ + args[0])
    } else if args.len() == 1 {
        Err("--config requires a value"@)
    } else {
        check_path(Some(args[1]), args.skip(2))
    }
}

/// Parses the arguments of the command that checks a configuration: the path of that, or
/// what is wrong with the arguments.
pub fn parse_check_args(args: &Vec<String>) -> (r: Result<String, String>)
    ensures
        match r {
            Ok(path) => check_path(None, text::views(args@)) == Ok::<Seq<char>, Seq<char>>(path@),
            Err(e) => check_path(None, text::views(args@)) == Err::<Seq<char>, Seq<char>>(e@),
        },
{
    let ghost all = text::views(args@);
    let mut found: Option<String> = None;
    let mut i: usize = 0;
    assert(all.skip(0) =~= all);
    while i < args.len()
        invariant
            i <= args.len(),
            all == text::views(args@),
            check_path(text::opt_view(found), all.skip(i as int)) == check_path(None, all),
        decreases args.len() - i,
    {
        proof {
            let rest = all.skip(i as int);
            assert(rest[0] == args@[i as int]@);
            if i + 1 < args.len() {
                assert(rest[1] == args@[i + 1]@);
                assert(rest.skip(2) =~= all.skip(i + 2));
            }
        }
        if !str_eq(args[i].as_str(), "--config") {
            let mut s = "unknown arg for check-config: ".to_owned();
            s.append(args[i].as_str());
            return Err(s);
        }
        if i + 1 >= args.len() {
            return Err("--config requires a value".to_owned());
        }
        found = Some(args[i + 1].clone());
        i = i + 2;
    }
    assert(all.skip(i as int) =~= Seq::<Seq<char>>::empty());
    match found {
        Some(path) => Ok(path),
        None => Err("check-config requires --config <path>".to_owned()),
    }
}

/// A configuration that was read: what there is to say of a tree, or a flat one, which
/// is validated against the files that it names.
pub enum CheckedConfig {
    Tree(Vec<ClusterDiag>),
    Flat(ClusterConf),
}

/// A configuration that was read.
pub enum CheckedSpec {
    Tree(Seq<diagnostics::Finding>),
    Flat(config::ClusterSpec),
}

/// What the contents of a configuration file are, or why they cannot be read.
pub open spec fn checked(file: Seq<char>) -> Result<CheckedSpec, Seq<char>> {
    if config::has_tree_form(file) {
        match config::tree_conf(file) {
            Ok(tree) => Ok(
                CheckedSpec::Tree(
                    diagnostics::tree_findings(Seq::empty(), tree.root, Seq::empty()),
                ),
            ),
            Err(e) => Err("PARSE ERROR: "@ + e),
        }
    } else {
        match config::cluster_conf(file) {
            Ok(conf) => Ok(CheckedSpec::Flat(conf)),
            Err(e) => Err("PARSE ERROR: "@ + e),
        }
    }
}

/// Reads a configuration of either form.
pub fn check_config(file: &str) -> (r: Result<CheckedConfig, String>)
    ensures
        match r {
            Ok(CheckedConfig::Tree(diags)) => checked(file@) == Ok::<CheckedSpec, Seq<char>>(
                CheckedSpec::Tree(diagnostics::findings(diags@)),
            ),
            Ok(CheckedConfig::Flat(conf)) => checked(file@) == Ok::<CheckedSpec, Seq<char>>(
                CheckedSpec::Flat(conf@),
            ),
            Err(e) => checked(file@) == Err::<CheckedSpec, Seq<char>>(e@),
        },
{
    let e = if is_tree_config(file) {
        match parse_tree_conf(file) {
            Ok(tree) => {
                return Ok(CheckedConfig::Tree(diagnose_tree(&tree.root)));
            },
            Err(e) => e,
        }
    } else {
        match parse_cluster_conf(file) {
            Ok(conf) => {
                return Ok(CheckedConfig::Flat(conf));
            },
            Err(e) => e,
        }
    };
    let mut s = "PARSE ERROR: ".to_owned();
    s.append(e.as_str());
    Err(s)
}

// -- Shards -----------------------------------------------------------------

/// What a shard is called in a report on its health.
pub open spec fn shard_label(shard: config::ShardSpec) -> Seq<char> {
    match shard {
        config::ShardSpec::Raw { path, .. } => "raw:"@ + path,
        config::ShardSpec::Fs { root, .. } => "fs:"@ + root,
        config::ShardSpec::S3 { endpoint, bucket, .. } => "s3:"@ + endpoint + "/"@ + bucket,
        config::ShardSpec::Mem => "mem"@,
        config::ShardSpec::Node(name) => "node:"@ + name,
    }
}

impl ShardConf {
    /// What the shard is called in a report on its health.
    pub fn label(&self) -> (s: String)
        ensures
            s@ == shard_label(self@),
    {
        match self {
            ShardConf::Raw { path, .. } => {
                let mut s = "raw:".to_owned();
                s.append(path.as_str());
                s
            },
            ShardConf::Fs { root, .. } => {
                let mut s = "fs:".to_owned();
                s.append(root.as_str());
                s
            },
            ShardConf::S3 { endpoint, bucket, .. } => {
                let mut s = "s3:".to_owned();
                s.append(endpoint.as_str());
                s.append("/");
                s.append(bucket.as_str());
                s
            },
            ShardConf::Mem => "mem".to_owned(),
            ShardConf::Node(name) => {
                let mut s = "node:".to_owned();
                s.append(name.as_str());
                s
            },
        }
    }
}

/// Numbers of shards, with commas between them.
pub open spec fn joined(ids: Seq<usize>) -> Seq<char>
    decreases ids.len(),
{
    if ids.len() == 0 {
        Seq::empty()
    } else if ids.len() == 1 {
        text::decimal(ids[0] as nat)
    } else {
        joined(ids.drop_last()) + ","@ + text::decimal(ids.last() as nat)
    }
}

/// Numbers of shards, with commas between them.
pub fn join_shards(ids: &Vec<usize>) -> (s: String)
    ensures
        s@ == joined(ids@),
{
    let mut s = String::new();
    let mut i: usize = 0;
    while i < ids.len()
        invariant
            i <= ids.len(),
            s@ == joined(ids@.take(i as int)),
        decreases ids.len() - i,
    {
        assert(ids@.take(i + 1).drop_last() =~= ids@.take(i as int));
        if i > 0 {
            s.append(",");
        }
        s.append(number(ids[i] as u64).as_str());
        i = i + 1;
        proof {
            if i == 1 {
                assert(s@ =~= text::decimal(ids@[0] as nat));
            }
        }
    }
    assert(ids@.take(i as int) =~= ids@);
    s
}

/// Why the copies of objects cannot be compared: there is only one of each.
pub open spec fn single_copies(replicas: usize) -> Seq<char> {
    "ERROR: cross-verify requires --replicas >= 2 (got "@ + text::decimal(replicas as nat) + ")"@
}

/// Whether the copies of objects can be compared, or why not.
pub fn check_cross_verify(replicas: usize) -> (r: Result<(), String>)
    ensures
        match r {
            Ok(()) => replicas >= 2,
            Err(e) => replicas < 2 && e@ == single_copies(replicas),
        },
{
    if replicas < 2 {
        let mut s = "ERROR: cross-verify requires --replicas >= 2 (got ".to_owned();
        s.append(number(replicas as u64).as_str());
        s.append(")");
        return Err(s);
    }
    Ok(())
}

// -- Comparing copies -------------------------------------------------------

/// Copies of objects by path, after one more file of a shard.
pub open spec fn with_file(
    m: Map<Seq<char>, Seq<(usize, u64)>>,
    shard: usize,
    path: Seq<char>,
    size: u64,
) -> Map<Seq<char>, Seq<(usize, u64)>> {
    let held = if m.contains_key(path) {
        m[path]
    } else {
        Seq::empty()
    };
    m.insert(path, held.push((shard, size)))
}

/// Copies of objects by path, after the files of a shard.
pub open spec fn with_files(
    m: Map<Seq<char>, Seq<(usize, u64)>>,
    shard: usize,
    files: Seq<(String, u64)>,
) -> Map<Seq<char>, Seq<(usize, u64)>>
    decreases files.len(),
{
    if files.len() == 0 {
        m
    } else {
        with_file(with_files(m, shard, files.drop_last()), shard, files.last().0@, files.last().1)
    }
}

/// The copies of each object that some shards list: the shard and the size of each.
pub open spec fn copies_of(listings: Seq<Vec<(String, u64)>>) -> Map<Seq<char>, Seq<(usize, u64)>>
    decreases listings.len(),
{
    if listings.len() == 0 {
        Map::empty()
    } else {
        with_files(
            copies_of(listings.drop_last()),
            (listings.len() - 1) as usize,
            listings.last()@,
        )
    }
}

fn add_file(m: &mut StringMap<Vec<(usize, u64)>>, shard: usize, path: &String, size: u64)
    ensures
        final(m)@ == with_file(old(m)@, shard, path@, size),
{
    let mut held = match m.remove(path.as_str()) {
        Some(v) => v,
        None => Vec::new(),
    };
    held.push((shard, size));
    m.insert(path.clone(), held);
    assert(m@ =~= with_file(old(m)@, shard, path@, size));
}

/// The copies of each object that some shards list: the shard and the size of each.
pub fn find_copies(listings: &Vec<Vec<(String, u64)>>) -> (m: StringMap<Vec<(usize, u64)>>)
    ensures
        m@ == copies_of(listings@),
{
    let mut m: StringMap<Vec<(usize, u64)>> = StringMap::new();
    let mut i: usize = 0;
    assert(m@ =~= copies_of(listings@.take(0)));
    while i < listings.len()
        invariant
            i <= listings.len(),
            m@ == copies_of(listings@.take(i as int)),
        decreases listings.len() - i,
    {
        let files = &listings[i];
        let ghost before = m@;
        let mut k: usize = 0;
        assert(files@.take(0) =~= Seq::<(String, u64)>::empty());
        while k < files.len()
            invariant
                k <= files.len(),
                m@ == with_files(before, i, files@.take(k as int)),
            decreases files.len() - k,
        {
            assert(files@.take(k + 1).drop_last() =~= files@.take(k as int));
            add_file(&mut m, i, &files[k].0, files[k].1);
            k = k + 1;
        }
        proof {
            assert(files@.take(k as int) =~= files@);
            let t = listings@.take(i + 1);
            assert(t.drop_last() =~= listings@.take(i as int));
            assert(t.last() == listings@[i as int]);
        }
        i = i + 1;
    }
    assert(listings@.take(i as int) =~= listings@);
    m
}

/// What reading a copy gave.
pub enum CopyRead {
    /// The checksum of its contents.
    Read(u32),
    /// The copy was found, and could not be read.
    ReadError(String),
    /// The copy was not found.
    GetError(String),
}

/// What there is to say of copies whose sizes are not that of the first.
pub open spec fn size_mismatches(copies: Seq<(usize, u64)>, n: int) -> Seq<Seq<char>>
    decreases n,
{
    if n <= 1 {
        Seq::empty()
    } else {
        let head = size_mismatches(copies, n - 1);
        if copies[n - 1].1 != copies[0].1 {
            head.push(
                "size mismatch: shard "@ + text::decimal(copies[0].0 as nat) + " has "@
                    + text::decimal(copies[0].1 as nat) + " bytes, shard "@ + text::decimal(
                    copies[n - 1].0 as nat,
                ) + " has "@ + text::decimal(copies[n - 1].1 as nat) + " bytes"@,
            )
        } else {
            head
        }
    }
}

/// What there is to say of copies that were not read.
pub open spec fn read_errors(copies: Seq<(usize, u64)>, reads: Seq<CopyRead>, n: int) -> Seq<
    Seq<char>,
>
    decreases n,
{
    if n <= 0 {
        Seq::empty()
    } else {
        let head = read_errors(copies, reads, n - 1);
        match reads[n - 1] {
            CopyRead::Read(_) => head,
            CopyRead::ReadError(e) => head.push(
                "shard "@ + text::decimal(copies[n - 1].0 as nat) + " read error: "@ + e@,
            ),
            CopyRead::GetError(e) => head.push(
                "shard "@ + text::decimal(copies[n - 1].0 as nat) + " get error: "@ + e@,
            ),
        }
    }
}

/// The shards of the copies that were read, with the checksums.
pub open spec fn sums_read(copies: Seq<(usize, u64)>, reads: Seq<CopyRead>, n: int) -> Seq<
    (usize, u32),
>
    decreases n,
{
    if n <= 0 {
        Seq::empty()
    } else {
        let head = sums_read(copies, reads, n - 1);
        match reads[n - 1] {
            CopyRead::Read(crc) => head.push((copies[n - 1].0, crc)),
            _ => head,
        }
    }
}

/// What there is to say of copies whose checksums are not that of the first.
pub open spec fn sum_mismatches(sums: Seq<(usize, u32)>, n: int) -> Seq<Seq<char>>
    decreases n,
{
    if n <= 1 {
        Seq::empty()
    } else {
        let head = sum_mismatches(sums, n - 1);
        if sums[n - 1].1 != sums[0].1 {
            head.push(
                "CRC mismatch: shard "@ + text::decimal(sums[0].0 as nat) + " = "@
                    + digest::checksum_text(sums[0].1, false) + ", shard "@ + text::decimal(
                    sums[n - 1].0 as nat,
                ) + " = "@ + digest::checksum_text(sums[n - 1].1, false),
            )
        } else {
            head
        }
    }
}

/// What there is to say of the copies of an object: where sizes differ, what was not
/// read, and where contents differ. Of a single copy there is nothing to say.
pub open spec fn copy_mismatches(copies: Seq<(usize, u64)>, reads: Seq<CopyRead>) -> Seq<Seq<char>> {
    if copies.len() < 2 {
        Seq::empty()
    } else {
        let sums = sums_read(copies, reads, reads.len() as int);
        size_mismatches(copies, copies.len() as int) + read_errors(
            copies,
            reads,
            reads.len() as int,
        ) + sum_mismatches(sums, sums.len() as int)
    }
}

fn size_message(first: (usize, u64), other: (usize, u64)) -> (s: String)
    ensures
        s@ == "size mismatch: shard "@ + text::decimal(first.0 as nat) + " has "@ + text::decimal(
            first.1 as nat,
        ) + " bytes, shard "@ + text::decimal(other.0 as nat) + " has "@ + text::decimal(
            other.1 as nat,
        ) + " bytes"@,
{
    let mut s = "size mismatch: shard ".to_owned();
    s.append(number(first.0 as u64).as_str());
    s.append(" has ");
    s.append(number(first.1).as_str());
    s.append(" bytes, shard ");
    s.append(number(other.0 as u64).as_str());
    s.append(" has ");
    s.append(number(other.1).as_str());
    s.append(" bytes");
    s
}

fn sum_message(first: (usize, u32), other: (usize, u32)) -> (s: String)
    ensures
        s@ == "CRC mismatch: shard "@ + text::decimal(first.0 as nat) + " = "@
            + digest::checksum_text(first.1, false) + ", shard "@ + text::decimal(other.0 as nat) + " = "@
            + digest::checksum_text(other.1, false),
{
    let mut s = "CRC mismatch: shard ".to_owned();
    s.append(number(first.0 as u64).as_str());
    s.append(" = ");
    s.append(checksum_string(first.1, false).as_str());
    s.append(", shard ");
    s.append(number(other.0 as u64).as_str());
    s.append(" = ");
    s.append(checksum_string(other.1, false).as_str());
    s
}

fn error_message(shard: usize, what: &str, e: &str) -> (s: String)
    ensures
        s@ == "shard "@ + text::decimal(shard as nat) + what@ + e@,
{
    let mut s = "shard ".to_owned();
    s.append(number(shard as u64).as_str());
    s.append(what);
    s.append(e);
    s
}

proof fn lemma_views_push(v: Seq<String>, s: String)
    ensures
        text::views(v.push(s)) == text::views(v).push(s@),
{
    assert(text::views(v.push(s)) =~= text::views(v).push(s@));
}

/// What there is to say of the copies of an object, given what reading each of them gave.
pub fn compare_copies(copies: &Vec<(usize, u64)>, reads: &Vec<CopyRead>) -> (r: Vec<String>)
    requires
        reads.len() == copies.len(),
    ensures
        text::views(r@) == copy_mismatches(copies@, reads@),
{
    let mut r: Vec<String> = Vec::new();
    assert(text::views(r@) =~= Seq::<Seq<char>>::empty());
    if copies.len() < 2 {
        return r;
    }
    let first = copies[0];
    let mut i: usize = 1;
    while i < copies.len()
        invariant
            1 <= i <= copies.len(),
            first == copies@[0],
            text::views(r@) == size_mismatches(copies@, i as int),
        decreases copies.len() - i,
    {
        let other = copies[i];
        if other.1 != first.1 {
            let s = size_message(first, other);
            proof {
                lemma_views_push(r@, s);
            }
            r.push(s);
        }
        i = i + 1;
    }
    let ghost sizes = text::views(r@);
    let mut sums: Vec<(usize, u32)> = Vec::new();
    let mut i: usize = 0;
    assert(sizes + read_errors(copies@, reads@, 0) =~= sizes);
    while i < reads.len()
        invariant
            i <= reads.len(),
            reads.len() == copies.len(),
            sums@ == sums_read(copies@, reads@, i as int),
            text::views(r@) == sizes + read_errors(copies@, reads@, i as int),
        decreases reads.len() - i,
    {
        let shard: usize = copies[i].0;
        match &reads[i] {
            CopyRead::Read(crc) => {
                sums.push((shard, *crc));
            },
            CopyRead::ReadError(e) => {
                let s = error_message(shard, " read error: ", e.as_str());
                proof {
                    lemma_views_push(r@, s);
                }
                r.push(s);
            },
            CopyRead::GetError(e) => {
                let s = error_message(shard, " get error: ", e.as_str());
                proof {
                    lemma_views_push(r@, s);
                }
                r.push(s);
            },
        }
        i = i + 1;
        assert(text::views(r@) =~= sizes + read_errors(copies@, reads@, i as int));
    }
    let ghost before = text::views(r@);
    if sums.len() < 2 {
        assert(before + sum_mismatches(sums@, sums@.len() as int) =~= before);
        return r;
    }
    let first = sums[0];
    let mut i: usize = 1;
    assert(before + sum_mismatches(sums@, 1) =~= before);
    while i < sums.len()
        invariant
            1 <= i <= sums.len(),
            first == sums@[0],
            text::views(r@) == before + sum_mismatches(sums@, i as int),
        decreases sums.len() - i,
    {
        let other = sums[i];
        if other.1 != first.1 {
            let s = sum_message(first, other);
            proof {
                lemma_views_push(r@, s);
            }
            r.push(s);
        }
        i = i + 1;
        assert(text::views(r@) =~= before + sum_mismatches(sums@, i as int));
    }
    r
}

// -- Viewing a catalog ------------------------------------------------------

/// What the viewer of catalogs is asked for.
#[derive(Debug)]
pub enum ViewRequest {
    /// Its version.
    Version,
    /// A file, in a format if one is given.
    View { format: Option<String>, path: String },
    /// The arguments are wrong, in these words.
    Wrong(String),
}

/// What the viewer of catalogs is asked for.
pub enum ViewSpec {
    Version,
    View { format: Option<Seq<char>>, path: Seq<char> },
    Wrong(Seq<char>),
}

impl View for ViewRequest {
    type V = ViewSpec;

    open spec fn view(&self) -> ViewSpec {
        match *self {
            ViewRequest::Version => ViewSpec::Version,
            ViewRequest::View { format, path } => ViewSpec::View {
                format: text::opt_view(format),
                path: path@,
            },
            ViewRequest::Wrong(s) => ViewSpec::Wrong(s@),
        }
    }
}

/// How the viewer is called.
pub open spec fn view_usage() -> Seq<char> {
    "Usage: shardedobjstr-catview [--format json|bin] <catalog-file>"@
}

/// What the viewer is asked for by some more arguments.
pub open spec fn view_request(
    format: Option<Seq<char>>,
    path: Option<Seq<char>>,
    args: Seq<Seq<char>>,
) -> ViewSpec
    decreases args.len(),
{
    if args.len() == 0 {
        match path {
            Some(p) => ViewSpec::View { format, path: p },
            None => ViewSpec::Wrong(view_usage()),
        }
    } else if args[0] == "--version"@ || args[0] == "-V"@ || args[0] == "version"@ {
        ViewSpec::Version
    } else if args[0] == "--format"@ {
        if args.len() == 1 {
            ViewSpec::Wrong("--format requires a value: json or bin"@)
        } else {
            view_request(Some(args[1]), path, args.skip(2))
        }
    } else {
        view_request(format, Some(args[0]), args.skip(1))
    }
}

/// Parses the arguments of the viewer of catalogs.
pub fn parse_view_args(args: &Vec<String>) -> (r: ViewRequest)
    ensures
        r@ == view_request(None, None, text::views(args@)),
{
    let ghost all = text::views(args@);
    let mut format: Option<String> = None;
    let mut path: Option<String> = None;
    let mut i: usize = 0;
    assert(all.skip(0) =~= all);
    while i < args.len()
        invariant
            i <= args.len(),
            all == text::views(args@),
            view_request(text::opt_view(format), text::opt_view(path), all.skip(i as int))
                == view_request(None, None, all),
        decreases args.len() - i,
    {
        let a = args[i].as_str();
        proof {
            let rest = all.skip(i as int);
            assert(rest[0] == args@[i as int]@);
            assert(rest.skip(1) =~= all.skip(i + 1));
            if i + 1 < args.len() {
                assert(rest[1] == args@[i + 1]@);
                assert(rest.skip(2) =~= all.skip(i + 2));
            }
        }
        if str_eq(a, "--version") || str_eq(a, "-V") || str_eq(a, "version") {
            return ViewRequest::Version;
        }
        if str_eq(a, "--format") {
            if i + 1 >= args.len() {
                return ViewRequest::Wrong("--format requires a value: json or bin".to_owned());
            }
            format = Some(args[i + 1].clone());
            i = i + 2;
        } else {
            path = Some(args[i].clone());
            i = i + 1;
        }
    }
    assert(all.skip(i as int) =~= Seq::<Seq<char>>::empty());
    match path {
        Some(path) => ViewRequest::View { format, path },
        None => ViewRequest::Wrong(
            "Usage: shardedobjstr-catview [--format json|bin] <catalog-file>".to_owned(),
        ),
    }
}

/// Which of two readings of a file is its catalog.
#[derive(Debug, Clone, Copy, PartialEq, Eq, Structural)]
pub enum AutoChoice {
    Json,
    Bincode,
    /// The file holds no entries.
    Nothing,
    /// The file is neither.
    Neither,
}

/// Which of two readings of a file is its catalog: JSON if there is something in it, or
/// else binary. The number of entries of a reading is missing if it failed.
pub fn choose_reading(json: Option<usize>, bincode: bool) -> (r: AutoChoice)
    ensures
        r == AutoChoice::Json <==> (json matches Some(n) && n > 0),
        r == AutoChoice::Bincode <==> bincode && !(json matches Some(n) && n > 0),
        r == AutoChoice::Nothing <==> !bincode && json == Some(0usize),
        r == AutoChoice::Neither <==> !bincode && json is None,
{
    match json {
        Some(n) => {
            if n > 0 {
                AutoChoice::Json
            } else if bincode {
                AutoChoice::Bincode
            } else {
                AutoChoice::Nothing
            }
        },
        None => {
            if bincode {
                AutoChoice::Bincode
            } else {
                AutoChoice::Neither
            }
        },
    }
}

// -- Reporting placements ---------------------------------------------------

/// What a report says of an object.
#[derive(Debug)]
pub struct ReportRow {
    pub key: String,
    pub size: u64,
    /// How many copies the catalog has.
    pub copies: usize,
    /// The checksum in hexadecimal, or a dash.
    pub crc32c: String,
    /// The numbers of the shards, with commas between them.
    pub shards: String,
    /// Whether there are too few copies.
    pub few: bool,
}

/// What a report says of an object.
pub struct RowSpec {
    pub key: Seq<char>,
    pub size: u64,
    pub copies: nat,
    pub crc32c: Seq<char>,
    pub shards: Seq<char>,
    pub few: bool,
}

impl View for ReportRow {
    type V = RowSpec;

    open spec fn view(&self) -> RowSpec {
        RowSpec {
            key: self.key@,
            size: self.size,
            copies: self.copies as nat,
            crc32c: self.crc32c@,
            shards: self.shards@,
            few: self.few,
        }
    }
}

/// What the rows of a report say.
pub open spec fn row_views(v: Seq<ReportRow>) -> Seq<RowSpec> {
    Seq::new(v.len(), |i: int| v[i]@)
}

/// What a report says of an object, given how many copies there should be.
pub open spec fn row_of(key: Seq<char>, e: catalog::Placement, rf: nat) -> RowSpec {
    RowSpec {
        key,
        size: e.size,
        copies: e.shards.len(),
        crc32c: match e.crc32c {
            Some(crc) => digest::hex_digits(crc as nat, 8, false),
            None => "-"@,
        },
        shards: joined(e.shards),
        few: e.shards.len() < rf,
    }
}

/// What a report says of the objects of a catalog, in the order of their keys.
pub open spec fn rows_of(entries: catalog::Entries, rf: nat) -> Seq<RowSpec> {
    let keys = string_map::sorted(entries.dom());
    Seq::new(keys.len(), |i: int| row_of(keys[i], entries[keys[i]], rf))
}

/// Reports where all objects of a cluster are.
pub fn report_rows(store: &ShardedObjectStore) -> (r: Vec<ReportRow>)
    ensures
        row_views(r@) == rows_of(store@.entries, store@.rf),
{
    let entries = store.catalog().all_entries();
    let rf: usize = store.replication_factor();
    let ghost keys = string_map::sorted(store@.entries.dom());
    let ghost all = catalog::pairs(store@.entries, keys);
    assert(catalog::entry_views(entries@).len() == keys.len());
    let mut r: Vec<ReportRow> = Vec::new();
    let mut i: usize = 0;
    while i < entries.len()
        invariant
            i <= entries.len(),
            rf == store@.rf,
            keys == string_map::sorted(store@.entries.dom()),
            all == catalog::pairs(store@.entries, keys),
            catalog::entry_views(entries@) == all,
            entries@.len() == keys.len(),
            row_views(r@) == rows_of(store@.entries, rf as nat).take(i as int),
        decreases entries.len() - i,
    {
        let ghost before = r@;
        let (key, e) = &entries[i];
        assert(catalog::entry_views(entries@)[i as int] == all[i as int]);
        let row = ReportRow {
            key: key.clone(),
            size: e.size,
            copies: e.shards.len(),
            crc32c: match e.crc32c {
                Some(crc) => hex(crc, 8, false),
                None => "-".to_owned(),
            },
            shards: join_shards(&e.shards),
            few: e.shards.len() < rf,
        };
        r.push(row);
        assert(row_views(r@) =~= row_views(before).push(row@));
        assert(row@ == rows_of(store@.entries, rf as nat)[i as int]);
        assert(row_views(r@) =~= rows_of(store@.entries, rf as nat).take(i + 1));
        i = i + 1;
    }
    assert(rows_of(store@.entries, rf as nat).take(i as int) =~= rows_of(
        store@.entries,
        rf as nat,
    ));
    r
}

/// The objects of a report with too few copies.
pub open spec fn few_of(rows: Seq<RowSpec>) -> Seq<RowSpec> {
    rows.filter(|row: RowSpec| row.few)
}

/// How many objects of a report have too few copies.
pub fn count_few(rows: &Vec<ReportRow>) -> (n: usize)
    ensures
        n == few_of(row_views(rows@)).len(),
{
    let ghost all = row_views(rows@);
    let ghost pred = |row: RowSpec| row.few;
    let mut n: usize = 0;
    let mut i: usize = 0;
    proof {
        placement::lemma_filter_none(all, pred);
    }
    while i < rows.len()
        invariant
            i <= rows.len(),
            all == row_views(rows@),
            pred == (|row: RowSpec| row.few),
            n == all.take(i as int).filter(pred).len(),
            n <= i,
        decreases rows.len() - i,
    {
        proof {
            placement::lemma_filter_step(all, i as int, pred);
        }
        if rows[i].few {
            n = n + 1;
        }
        i = i + 1;
    }
    assert(all.take(i as int) =~= all);
    n
}

// -- Laws -------------------------------------------------------------------

proof fn lemma_no_size_mismatch(copies: Seq<(usize, u64)>, n: int)
    requires
        n <= copies.len(),
        forall|i: int| 0 <= i < copies.len() ==> (#[trigger] copies[i]).1 == copies[0].1,
    ensures
        size_mismatches(copies, n).len() == 0,
    decreases n,
{
    if n > 1 {
        lemma_no_size_mismatch(copies, n - 1);
    }
}

proof fn lemma_all_read(copies: Seq<(usize, u64)>, reads: Seq<CopyRead>, crc: u32, n: int)
    requires
        n <= reads.len(),
        forall|i: int| 0 <= i < reads.len() ==> (#[trigger] reads[i]) == CopyRead::Read(crc),
    ensures
        read_errors(copies, reads, n).len() == 0,
        forall|i: int|
            0 <= i < sums_read(copies, reads, n).len() ==> (#[trigger] sums_read(
                copies,
                reads,
                n,
            )[i]).1 == crc,
    decreases n,
{
    if n > 0 {
        lemma_all_read(copies, reads, crc, n - 1);
        assert(reads[n - 1] == CopyRead::Read(crc));
        let head = sums_read(copies, reads, n - 1);
        let all = sums_read(copies, reads, n);
        assert(all == head.push((copies[n - 1].0, crc)));
        assert forall|i: int| 0 <= i < all.len() implies (#[trigger] all[i]).1 == crc by {
            if i < head.len() {
                assert(all[i] == head[i]);
            }
        }
    }
}

proof fn lemma_no_sum_mismatch(sums: Seq<(usize, u32)>, crc: u32, n: int)
    requires
        n <= sums.len(),
        forall|i: int| 0 <= i < sums.len() ==> (#[trigger] sums[i]).1 == crc,
    ensures
        sum_mismatches(sums, n).len() == 0,
    decreases n,
{
    if n > 1 {
        lemma_no_sum_mismatch(sums, crc, n - 1);
    }
}

/// There is nothing to say of copies of one size that all were read and have the same
/// checksum.
pub proof fn equal_copies_have_no_mismatch(copies: Seq<(usize, u64)>, reads: Seq<CopyRead>, crc: u32)
    requires
        reads.len() == copies.len(),
        forall|i: int| 0 <= i < copies.len() ==> (#[trigger] copies[i]).1 == copies[0].1,
        forall|i: int| 0 <= i < reads.len() ==> (#[trigger] reads[i]) == CopyRead::Read(crc),
    ensures
        copy_mismatches(copies, reads) == Seq::<Seq<char>>::empty(),
{
    lemma_no_size_mismatch(copies, copies.len() as int);
    lemma_all_read(copies, reads, crc, reads.len() as int);
    let sums = sums_read(copies, reads, reads.len() as int);
    lemma_no_sum_mismatch(sums, crc, sums.len() as int);
    assert(copy_mismatches(copies, reads) =~= Seq::<Seq<char>>::empty());
}

/// An object that a report marks has too few copies on shards that are there.
pub proof fn a_marked_object_has_too_few_copies(c: store::ClusterState, key: Seq<char>)
    requires
        c.entries.contains_key(key),
        row_of(key, c.entries[key], c.rf).few,
    ensures
        balance::live_copies(c, key) < c.rf,
{
    c.entries[key].shards.lemma_filter_len(|id: usize| balance::is_live(c.shards, id));
}

/// Each command is known by its names, and by no other.
pub proof fn each_command_has_its_names(name: Seq<char>)
    ensures
        command_of("--version"@) == Some(Command::Version),
        command_of("-V"@) == Some(Command::Version),
        command_of("version"@) == Some(Command::Version),
        command_of("check-config"@) == Some(Command::CheckConfig),
        command_of("format"@) == Some(Command::Format),
        command_of("info"@) == Some(Command::Info),
        command_of("list"@) == Some(Command::List),
        command_of("ls"@) == Some(Command::List),
        command_of("get"@) == Some(Command::Get),
        command_of("put"@) == Some(Command::Put),
        command_of("delete"@) == Some(Command::Delete),
        command_of("del"@) == Some(Command::Delete),
        command_of("verify"@) == Some(Command::Verify),
        command_of("cross-verify"@) == Some(Command::CrossVerify),
        command_of("health"@) == Some(Command::Health),
        command_of("add-shard"@) == Some(Command::AddShard),
        command_of("remove-shard"@) == Some(Command::RemoveShard),
        command_of("repair-replication"@) == Some(Command::RepairReplication),
        command_of("report"@) == Some(Command::Report),
        command_of("vacuum"@) == Some(Command::Vacuum),
        command_of("list-deleted"@) == Some(Command::ListDeleted),
        command_of(name) is Some ==> name == "--version"@ || name == "-V"@ || name == "version"@
            || name == "check-config"@ || name == "format"@ || name == "info"@ || name == "list"@
            || name == "ls"@ || name == "get"@ || name == "put"@ || name == "delete"@ || name
            == "del"@ || name == "verify"@ || name == "cross-verify"@ || name == "health"@ || name
            == "add-shard"@ || name == "remove-shard"@ || name == "repair-replication"@ || name
            == "report"@ || name == "vacuum"@ || name == "list-deleted"@,
{
    reveal_strlit("--version");
    reveal_strlit("-V");
    reveal_strlit("version");
    reveal_strlit("check-config");
    reveal_strlit("format");
    reveal_strlit("info");
    reveal_strlit("list");
    reveal_strlit("ls");
    reveal_strlit("get");
    reveal_strlit("put");
    reveal_strlit("delete");
    reveal_strlit("del");
    reveal_strlit("verify");
    reveal_strlit("cross-verify");
    reveal_strlit("health");
    reveal_strlit("add-shard");
    reveal_strlit("remove-shard");
    reveal_strlit("repair-replication");
    reveal_strlit("report");
    reveal_strlit("vacuum");
    reveal_strlit("list-deleted");
    assert("--version"@.len() == 9);
    assert("-V"@.len() == 2);
    assert("version"@.len() == 7);
    assert("check-config"@.len() == 12);
    assert("format"@.len() == 6);
    assert("info"@.len() == 4);
    assert("list"@.len() == 4);
    assert("ls"@.len() == 2);
    assert("get"@.len() == 3);
    assert("put"@.len() == 3);
    assert("delete"@.len() == 6);
    assert("del"@.len() == 3);
    assert("verify"@.len() == 6);
    assert("cross-verify"@.len() == 12);
    assert("health"@.len() == 6);
    assert("add-shard"@.len() == 9);
    assert("remove-shard"@.len() == 12);
    assert("repair-replication"@.len() == 18);
    assert("report"@.len() == 6);
    assert("vacuum"@.len() == 6);
    assert("list-deleted"@.len() == 12);
    assert("-V"@[0] == '-' && "ls"@[0] == 'l');
    assert("get"@[0] == 'g' && "put"@[0] == 'p' && "del"@[0] == 'd');
    assert("info"@[0] == 'i' && "list"@[0] == 'l');
    assert("format"@[0] == 'f' && "delete"@[0] == 'd' && "health"@[0] == 'h' && "report"@[0] == 'r');
    assert("verify"@[0] == 'v' && "vacuum"@[0] == 'v');
    assert("verify"@[1] == 'e' && "vacuum"@[1] == 'a');
    assert("--version"@[0] == '-' && "add-shard"@[0] == 'a');
    assert("check-config"@[1] == 'h' && "cross-verify"@[1] == 'r');
    assert("check-config"@[0] == 'c' && "cross-verify"@[0] == 'c');
    assert("remove-shard"@[0] == 'r' && "list-deleted"@[0] == 'l');
}

/// The configuration to check is the last that is named; there must be one, and nothing
/// else among the arguments.
pub proof fn the_last_configuration_is_checked(
    found: Option<Seq<char>>,
    path: Seq<char>,
    arg: Seq<char>,
    rest: Seq<Seq<char>>,
)
    ensures
        check_path(None, Seq::empty()) is Err,
        check_path(found, seq!["--config"@, path]) == Ok::<Seq<char>, Seq<char>>(path),
        check_path(found, seq!["--config"@, path] + rest) == check_path(Some(path), rest),
        check_path(found, seq!["--config"@]) is Err,
        arg != "--config"@ ==> check_path(found, seq![arg] + rest) is Err,
{
    let a = seq!["--config"@, path];
    assert(a.skip(2) =~= Seq::<Seq<char>>::empty());
    assert(check_path(Some(path), Seq::empty()) == Ok::<Seq<char>, Seq<char>>(path));
    let b = seq!["--config"@, path] + rest;
    assert(b[0] == "--config"@ && b[1] == path);
    assert(b.skip(2) =~= rest);
    assert((seq![arg] + rest)[0] == arg);
}

/// Whether a listing of files has one of this path and size.
pub open spec fn has_file(files: Seq<(String, u64)>, path: Seq<char>, size: u64) -> bool {
    exists|k: int| 0 <= k < files.len() && (#[trigger] files[k]).0@ == path && files[k].1 == size
}

/// A copy is known of an object exactly if the listing of the shard has it, with its size.
pub proof fn copies_are_what_the_shards_list(
    listings: Seq<Vec<(String, u64)>>,
    path: Seq<char>,
    shard: usize,
    size: u64,
)
    requires
        listings.len() <= usize::MAX,
    ensures
        (copies_of(listings).contains_key(path) && copies_of(listings)[path].contains(
            (shard, size),
        )) <==> shard < listings.len() && has_file(listings[shard as int]@, path, size),
    decreases listings.len(),
{
    if listings.len() > 0 {
        let head = listings.drop_last();
        let last = (listings.len() - 1) as usize;
        copies_are_what_the_shards_list(head, path, shard, size);
        lemma_with_files(copies_of(head), last, listings.last()@, path, shard, size);
        if shard < head.len() {
            assert(head[shard as int] == listings[shard as int]);
        }
    }
}

/// Whether copies hold one of an object.
pub open spec fn holds_copy(
    m: Map<Seq<char>, Seq<(usize, u64)>>,
    path: Seq<char>,
    shard: usize,
    size: u64,
) -> bool {
    m.contains_key(path) && m[path].contains((shard, size))
}

proof fn lemma_with_files(
    m: Map<Seq<char>, Seq<(usize, u64)>>,
    last: usize,
    files: Seq<(String, u64)>,
    path: Seq<char>,
    shard: usize,
    size: u64,
)
    ensures
        holds_copy(with_files(m, last, files), path, shard, size) <==> holds_copy(
            m,
            path,
            shard,
            size,
        ) || (shard == last && has_file(files, path, size)),
    decreases files.len(),
{
    if files.len() > 0 {
        let head = files.drop_last();
        lemma_with_files(m, last, head, path, shard, size);
        let before = with_files(m, last, head);
        let after = with_files(m, last, files);
        let f = files.last();
        assert(has_file(files, path, size) <==> has_file(head, path, size) || (f.0@ == path && f.1
            == size)) by {
            if has_file(files, path, size) {
                let k = choose|k: int|
                    0 <= k < files.len() && (#[trigger] files[k]).0@ == path && files[k].1 == size;
                if k < head.len() {
                    assert(head[k] == files[k]);
                }
            }
            if has_file(head, path, size) {
                let k = choose|k: int|
                    0 <= k < head.len() && (#[trigger] head[k]).0@ == path && head[k].1 == size;
                assert(files[k] == head[k]);
            }
            assert(files[files.len() - 1] == f);
        }
        if f.0@ == path {
            let held = if before.contains_key(path) {
                before[path]
            } else {
                Seq::empty()
            };
            let now = held.push((last, f.1));
            assert(after[path] == now);
            if held.contains((shard, size)) {
                let k = held.index_of((shard, size));
                assert(now[k] == (shard, size));
            }
            if now.contains((shard, size)) {
                let k = now.index_of((shard, size));
                if k < held.len() {
                    assert(held[k] == (shard, size));
                }
            }
            assert(now[held.len() as int] == (last, f.1));
        }
    }
}

proof fn lemma_size_mismatch(copies: Seq<(usize, u64)>, n: int)
    requires
        n <= copies.len(),
        size_mismatches(copies, n).len() == 0,
    ensures
        forall|i: int| 0 <= i < n ==> (#[trigger] copies[i]).1 == copies[0].1,
    decreases n,
{
    if n > 1 {
        lemma_size_mismatch(copies, n - 1);
        assert(copies[n - 1].1 == copies[0].1);
    }
}

proof fn lemma_read_error(copies: Seq<(usize, u64)>, reads: Seq<CopyRead>, n: int)
    requires
        n <= reads.len(),
        read_errors(copies, reads, n).len() == 0,
    ensures
        forall|i: int| 0 <= i < n ==> (#[trigger] reads[i]) is Read,
        n >= 0 ==> sums_read(copies, reads, n).len() == n,
        forall|i: int|
            0 <= i < n ==> #[trigger] sums_read(copies, reads, n)[i] == (
                copies[i].0,
                reads[i]->Read_0,
            ),
    decreases n,
{
    if n > 0 {
        lemma_read_error(copies, reads, n - 1);
        assert(reads[n - 1] is Read);
        let head = sums_read(copies, reads, n - 1);
        let all = sums_read(copies, reads, n);
        assert forall|i: int| 0 <= i < n implies #[trigger] all[i] == (
            copies[i].0,
            reads[i]->Read_0,
        ) by {
            if i < n - 1 {
                assert(all[i] == head[i]);
            }
        }
    }
}

proof fn lemma_sum_mismatch(sums: Seq<(usize, u32)>, n: int)
    requires
        n <= sums.len(),
        sum_mismatches(sums, n).len() == 0,
    ensures
        forall|i: int| 0 <= i < n ==> (#[trigger] sums[i]).1 == sums[0].1,
    decreases n,
{
    if n > 1 {
        lemma_sum_mismatch(sums, n - 1);
        assert(sums[n - 1].1 == sums[0].1);
    }
}

/// Copies of which there is nothing to say have the same size and were all read, with the
/// same checksum.
pub proof fn copies_without_a_mismatch_are_equal(copies: Seq<(usize, u64)>, reads: Seq<CopyRead>)
    requires
        copies.len() >= 2,
        reads.len() == copies.len(),
        copy_mismatches(copies, reads).len() == 0,
    ensures
        forall|i: int| 0 <= i < copies.len() ==> (#[trigger] copies[i]).1 == copies[0].1,
        reads[0] is Read,
        forall|i: int| 0 <= i < reads.len() ==> #[trigger] reads[i] == reads[0],
{
    let n = reads.len() as int;
    let sums = sums_read(copies, reads, n);
    lemma_size_mismatch(copies, copies.len() as int);
    lemma_read_error(copies, reads, n);
    lemma_sum_mismatch(sums, sums.len() as int);
    assert(sums[0] == (copies[0].0, reads[0]->Read_0));
    assert forall|i: int| 0 <= i < reads.len() implies #[trigger] reads[i] == reads[0] by {
        assert(sums[i] == (copies[i].0, reads[i]->Read_0));
    }
}

/// A single copy of an object is not compared with anything.
pub proof fn a_single_copy_has_no_mismatch(copies: Seq<(usize, u64)>, reads: Seq<CopyRead>)
    requires
        copies.len() < 2,
    ensures
        copy_mismatches(copies, reads).len() == 0,
{
}

/// A report has a row for each object of the catalog, and for nothing else, and says of it
/// what its entry says. It marks an object exactly if there are too few copies.
pub proof fn a_report_has_a_row_for_each_object(entries: catalog::Entries, rf: nat, key: Seq<char>)
    requires
        entries.dom().finite(),
    ensures
        entries.contains_key(key) <==> exists|i: int|
            0 <= i < rows_of(entries, rf).len() && (#[trigger] rows_of(entries, rf)[i]).key == key,
        rows_of(entries, rf).len() == entries.dom().len(),
        forall|i: int|
            0 <= i < rows_of(entries, rf).len() ==> {
                let row = #[trigger] rows_of(entries, rf)[i];
                let e = entries[row.key];
                &&& row.size == e.size
                &&& row.copies == e.shards.len()
                &&& row.few <==> e.shards.len() < rf
                &&& e.crc32c is None ==> row.crc32c == "-"@
                &&& e.crc32c matches Some(crc) ==> "0x"@ + row.crc32c == digest::checksum_text(
                    crc,
                    false,
                )
            },
{
    string_map::lemma_sorted_exists(entries.dom());
    let keys = string_map::sorted(entries.dom());
    let rows = rows_of(entries, rf);
    string_map::lemma_ascending_distinct(keys);
    if entries.contains_key(key) {
        assert(keys.to_set().contains(key));
        let i = keys.index_of(key);
        assert(rows[i].key == key);
    }
    assert forall|i: int| 0 <= i < rows.len() implies entries.contains_key(
        (#[trigger] rows[i]).key,
    ) by {
        assert(keys.to_set().contains(keys[i]));
    }
    keys.unique_seq_to_set();
}

/// The viewer shows the last file that is named, in the last format that is asked for.
/// There must be a file, and a format where one is announced.
pub proof fn the_viewer_shows_the_last_file(
    format: Option<Seq<char>>,
    path: Option<Seq<char>>,
    name: Seq<char>,
    rest: Seq<Seq<char>>,
)
    ensures
        view_request(format, None, Seq::empty()) is Wrong,
        path matches Some(p) ==> view_request(format, path, Seq::empty()) == (ViewSpec::View {
            format,
            path: p,
        }),
        view_request(format, path, seq!["--format"@, name] + rest) == view_request(
            Some(name),
            path,
            rest,
        ),
        view_request(format, path, seq!["--format"@]) is Wrong,
        name != "--format"@ && name != "--version"@ && name != "-V"@ && name != "version"@
            ==> view_request(format, path, seq![name] + rest) == view_request(
            format,
            Some(name),
            rest,
        ),
        name == "--version"@ || name == "-V"@ || name == "version"@ ==> view_request(
            format,
            path,
            seq![name] + rest,
        ) is Version,
{
    reveal_strlit("--format");
    reveal_strlit("--version");
    reveal_strlit("-V");
    reveal_strlit("version");
    assert("--format"@.len() == 8);
    let a = seq!["--format"@, name] + rest;
    assert(a[0] == "--format"@ && a[1] == name && a.skip(2) =~= rest);
    let b = seq![name] + rest;
    assert(b[0] == name && b.skip(1) =~= rest);
}

/// Whatever form a configuration has, it is read exactly if it is accepted as that form.
pub proof fn a_configuration_is_read_if_it_is_accepted(file: Seq<char>)
    ensures
        checked(file) is Ok <==> config::auto_conf(file) is Ok,
        checked(file) matches Ok(CheckedSpec::Flat(c)) ==> !config::has_tree_form(file)
            && config::cluster_conf(file) == Ok::<config::ClusterSpec, Seq<char>>(c),
        checked(file) matches Ok(CheckedSpec::Tree(_)) ==> config::has_tree_form(file),
{
}

} // verus!
