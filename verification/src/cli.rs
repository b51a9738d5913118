//! Arguments of the command line.

use vstd::prelude::*;
use vstd::string::*;
use crate::config;
use crate::config::{
    is_tree_config, parse_cluster_conf, parse_tree_conf, parse_u64, parse_usize, ShardConf, TreeConf,
};
use crate::persistence;
use crate::persistence::CatalogPersistence;
use crate::text;
use crate::text::{chars_of, str_eq, string_of, strip_prefix, trim};

verus! {

// -- Lists ------------------------------------------------------------------

/// The pieces of a text between commas.
pub open spec fn pieces(s: Seq<char>) -> Seq<Seq<char>>
    decreases s.len(),
{
    let n = text::span(s, |c: char| c == ',') as int;
    if n < s.len() {
        seq![s.take(n)] + pieces(s.skip(n + 1))
    } else {
        seq![s]
    }
}

/// Texts without the white space around them.
pub open spec fn all_trimmed(v: Seq<Seq<char>>) -> Seq<Seq<char>> {
    v.map_values(|s: Seq<char>| text::trimmed(s))
}

/// Parts a text at its commas, and trims the pieces.
fn split_list(s: &str) -> (r: Vec<String>)
    ensures
        text::views(r@) == all_trimmed(pieces(s@)),
{
    let v = chars_of(s);
    let ghost f = |s: Seq<char>| text::trimmed(s);
    let ghost stop = |c: char| c == ',';
    let mut r: Vec<String> = Vec::new();
    let mut start: usize = 0;
    let mut done = false;
    proof {
        assert(v@.skip(0) =~= v@);
        assert(text::views(r@) + all_trimmed(pieces(v@)) =~= all_trimmed(pieces(v@)));
    }
    while !done
        invariant
            start <= v.len(),
            v@ == s@,
            f == (|s: Seq<char>| text::trimmed(s)),
            stop == (|c: char| c == ','),
            !done ==> text::views(r@) + all_trimmed(pieces(v@.skip(start as int))) == all_trimmed(
                pieces(v@),
            ),
            done ==> text::views(r@) == all_trimmed(pieces(v@)),
        decreases v.len() - start + (if done {
                0int
            } else {
                1int
            }),
    {
        let ghost rest = v@.skip(start as int);
        let mut end: usize = start;
        while end < v.len() && v[end] != ','
            invariant
                start <= end <= v.len(),
                rest == v@.skip(start as int),
                stop == (|c: char| c == ','),
                forall|k: int| 0 <= k < end - start ==> !stop(#[trigger] rest[k]),
            decreases v.len() - end,
        {
            assert(rest[end - start] == v@[end as int]);
            end = end + 1;
        }
        proof {
            if end < v.len() {
                assert(rest[end - start] == v@[end as int]);
            }
            text::lemma_span(rest, stop, end - start);
        }
        let piece = string_of(&v, start, end);
        assert(piece@ =~= rest.take(end - start));
        let one = trim(piece.as_str());
        let ghost before = text::views(r@);
        r.push(one);
        assert(text::views(r@) =~= before.push(one@));
        if end < v.len() {
            proof {
                assert(rest.skip(end - start + 1) =~= v@.skip(end + 1));
                let tail = pieces(v@.skip(end + 1));
                assert(pieces(rest) == seq![rest.take(end - start)] + tail);
                assert(all_trimmed(pieces(rest)) =~= seq![one@] + all_trimmed(tail));
                assert(before + (seq![one@] + all_trimmed(tail)) =~= before.push(one@)
                    + all_trimmed(tail));
            }
            start = end + 1;
        } else {
            proof {
                assert(rest.take(end - start) =~= rest);
                assert(pieces(rest) == seq![rest]);
                assert(all_trimmed(pieces(rest)) =~= seq![one@]);
                assert(before + seq![one@] =~= before.push(one@));
            }
            done = true;
        }
    }
    r
}

// -- Flags ------------------------------------------------------------------

/// The arguments of a command, before a configuration is looked at.
#[derive(Debug)]
pub struct CliFlags {
    pub config: Option<String>,
    pub shard_paths: Vec<String>,
    pub replicas: usize,
    pub min_writes: Option<usize>,
    pub delete_requires_min_writes: bool,
    pub size: Option<u64>,
    pub direct_io: bool,
    pub key: Option<String>,
    pub prefix: Option<String>,
    pub to: Option<String>,
    pub from: Option<String>,
    pub long: bool,
    pub new_shard: Option<String>,
    pub remove: Option<String>,
    pub catalog: Option<String>,
    pub batch_size: Option<usize>,
    pub under_replicated: bool,
    pub node: Option<String>,
}

/// The arguments of a command, before a configuration is looked at.
pub struct FlagsSpec {
    pub config: Option<Seq<char>>,
    pub shard_paths: Seq<Seq<char>>,
    pub replicas: usize,
    pub min_writes: Option<usize>,
    pub delete_requires_min_writes: bool,
    pub size: Option<u64>,
    pub direct_io: bool,
    pub key: Option<Seq<char>>,
    pub prefix: Option<Seq<char>>,
    pub to: Option<Seq<char>>,
    pub from: Option<Seq<char>>,
    pub long: bool,
    pub new_shard: Option<Seq<char>>,
    pub remove: Option<Seq<char>>,
    pub catalog: Option<Seq<char>>,
    pub batch_size: Option<usize>,
    pub under_replicated: bool,
    pub node: Option<Seq<char>>,
}

impl View for CliFlags {
    type V = FlagsSpec;

    open spec fn view(&self) -> FlagsSpec {
        FlagsSpec {
            config: text::opt_view(self.config),
            shard_paths: text::views(self.shard_paths@),
            replicas: self.replicas,
            min_writes: self.min_writes,
            delete_requires_min_writes: self.delete_requires_min_writes,
            size: self.size,
            direct_io: self.direct_io,
            key: text::opt_view(self.key),
            prefix: text::opt_view(self.prefix),
            to: text::opt_view(self.to),
            from: text::opt_view(self.from),
            long: self.long,
            new_shard: text::opt_view(self.new_shard),
            remove: text::opt_view(self.remove),
            catalog: text::opt_view(self.catalog),
            batch_size: self.batch_size,
            under_replicated: self.under_replicated,
            node: text::opt_view(self.node),
        }
    }
}

/// No arguments.
pub open spec fn no_flags() -> FlagsSpec {
    FlagsSpec {
        config: None,
        shard_paths: Seq::empty(),
        replicas: 1,
        min_writes: None,
        delete_requires_min_writes: false,
        size: None,
        direct_io: false,
        key: None,
        prefix: None,
        to: None,
        from: None,
        long: false,
        new_shard: None,
        remove: None,
        catalog: None,
        batch_size: None,
        under_replicated: false,
        node: None,
    }
}

/// What is wrong with the arguments.
#[derive(Debug)]
pub enum ArgError {
    /// A flag has no value.
    NeedsValue(String),
    /// The value of a flag is no number.
    Invalid(String),
    /// An argument is not known.
    Unknown(String),
}

/// What is wrong with the arguments.
pub enum ArgErrorSpec {
    NeedsValue(Seq<char>),
    Invalid(Seq<char>),
    Unknown(Seq<char>),
}

impl View for ArgError {
    type V = ArgErrorSpec;

    open spec fn view(&self) -> ArgErrorSpec {
        match *self {
            ArgError::NeedsValue(f) => ArgErrorSpec::NeedsValue(f@),
            ArgError::Invalid(f) => ArgErrorSpec::Invalid(f@),
            ArgError::Unknown(a) => ArgErrorSpec::Unknown(a@),
        }
    }
}

impl ArgError {
    /// The error in words.
    pub fn message(&self) -> (s: String)
        ensures
            s@ == (match self@ {
                ArgErrorSpec::NeedsValue(f) => f + " requires a value"@,
                ArgErrorSpec::Invalid(f) => "invalid "@ + f,
                ArgErrorSpec::Unknown(a) => "unknown arg: "@ + a,
            }),
    {
        match self {
            ArgError::NeedsValue(f) => {
                let mut s = f.clone();
                s.append(" requires a value");
                s
            },
            ArgError::Invalid(f) => {
                let mut s = "invalid ".to_owned();
                s.append(f.as_str());
                s
            },
            ArgError::Unknown(a) => {
                let mut s = "unknown arg: ".to_owned();
                s.append(a.as_str());
                s
            },
        }
    }
}

/// The arguments after a flag without a value, if it is one.
pub open spec fn switched(f: FlagsSpec, flag: Seq<char>) -> Option<FlagsSpec> {
    if flag == "--delete-requires-min-writes"@ {
        Some(FlagsSpec { delete_requires_min_writes: true, ..f })
    } else if flag == "--direct-io"@ {
        Some(FlagsSpec { direct_io: true, ..f })
    } else if flag == "--long"@ || flag == "-l"@ {
        Some(FlagsSpec { long: true, ..f })
    } else if flag == "--under-replicated"@ {
        Some(FlagsSpec { under_replicated: true, ..f })
    } else {
        None
    }
}

/// Whether a flag takes a value.
pub open spec fn takes_value(flag: Seq<char>) -> bool {
    ||| flag == "--config"@
    ||| flag == "--shards"@
    ||| flag == "--replicas"@
    ||| flag == "--min-writes"@
    ||| flag == "--size"@
    ||| flag == "--key"@
    ||| flag == "--prefix"@
    ||| flag == "--to"@
    ||| flag == "--from"@
    ||| flag == "--new-shard"@
    ||| flag == "--remove"@
    ||| flag == "--catalog"@
    ||| flag == "--batch-size"@
    ||| flag == "--node"@
}

/// The arguments after a flag and its value, unless the value is no number where one is
/// needed.
pub open spec fn valued(f: FlagsSpec, flag: Seq<char>, value: Seq<char>) -> Option<FlagsSpec> {
    if flag == "--config"@ {
        Some(FlagsSpec { config: Some(value), ..f })
    } else if flag == "--shards"@ {
        Some(FlagsSpec { shard_paths: all_trimmed(pieces(value)), ..f })
    } else if flag == "--replicas"@ {
        match config::usize_of(value) {
            Some(n) => Some(FlagsSpec { replicas: n, ..f }),
            None => None,
        }
    } else if flag == "--min-writes"@ {
        match config::usize_of(value) {
            Some(n) => Some(FlagsSpec { min_writes: Some(n), ..f }),
            None => None,
        }
    } else if flag == "--size"@ {
        match config::u64_of(value) {
            Some(n) => Some(FlagsSpec { size: Some(n), ..f }),
            None => None,
        }
    } else if flag == "--key"@ {
        Some(FlagsSpec { key: Some(value), ..f })
    } else if flag == "--prefix"@ {
        Some(FlagsSpec { prefix: Some(value), ..f })
    } else if flag == "--to"@ {
        Some(FlagsSpec { to: Some(value), ..f })
    } else if flag == "--from"@ {
        Some(FlagsSpec { from: Some(value), ..f })
    } else if flag == "--new-shard"@ {
        Some(FlagsSpec { new_shard: Some(value), ..f })
    } else if flag == "--remove"@ {
        Some(FlagsSpec { remove: Some(value), ..f })
    } else if flag == "--catalog"@ {
        Some(FlagsSpec { catalog: Some(value), ..f })
    } else if flag == "--batch-size"@ {
        match config::usize_of(value) {
            Some(n) => Some(FlagsSpec { batch_size: Some(n), ..f }),
            None => None,
        }
    } else {
        Some(FlagsSpec { node: Some(value), ..f })
    }
}

/// The arguments after some more, or what is wrong with the first that is.
pub open spec fn flags_after(f: FlagsSpec, args: Seq<Seq<char>>) -> Result<FlagsSpec, ArgErrorSpec>
    decreases args.len(),
{
    if args.len() == 0 {
        Ok(f)
    } else {
        match switched(f, args[0]) {
            Some(g) => flags_after(g, args.skip(1)),
            None => if !takes_value(args[0]) {
                Err(ArgErrorSpec::Unknown(args[0]))
            } else if args.len() == 1 {
                Err(ArgErrorSpec::NeedsValue(args[0]))
            } else {
                match valued(f, args[0], args[1]) {
                    Some(g) => flags_after(g, args.skip(2)),
                    None => Err(ArgErrorSpec::Invalid(args[0])),
                }
            },
        }
    }
}

fn apply_switch(f: &mut CliFlags, flag: &str) -> (known: bool)
    ensures
        known ==> switched(old(f)@, flag@) == Some(final(f)@),
        !known ==> switched(old(f)@, flag@) is None && final(f)@ == old(f)@,
{
    if str_eq(flag, "--delete-requires-min-writes") {
        f.delete_requires_min_writes = true;
        true
    } else if str_eq(flag, "--direct-io") {
        f.direct_io = true;
        true
    } else if str_eq(flag, "--long") || str_eq(flag, "-l") {
        f.long = true;
        true
    } else if str_eq(flag, "--under-replicated") {
        f.under_replicated = true;
        true
    } else {
        false
    }
}

fn needs_value(flag: &str) -> (r: bool)
    ensures
        r == takes_value(flag@),
{
    str_eq(flag, "--config") || str_eq(flag, "--shards") || str_eq(flag, "--replicas") || str_eq(
        flag,
        "--min-writes",
    ) || str_eq(flag, "--size") || str_eq(flag, "--key") || str_eq(flag, "--prefix") || str_eq(
        flag,
        "--to",
    ) || str_eq(flag, "--from") || str_eq(flag, "--new-shard") || str_eq(flag, "--remove")
        || str_eq(flag, "--catalog") || str_eq(flag, "--batch-size") || str_eq(flag, "--node")
}

fn apply_value(f: &mut CliFlags, flag: &str, value: &str) -> (valid: bool)
    ensures
        valid ==> valued(old(f)@, flag@, value@) == Some(final(f)@),
        !valid ==> valued(old(f)@, flag@, value@) is None,
{
    if str_eq(flag, "--config") {
        f.config = Some(value.to_owned());
    } else if str_eq(flag, "--shards") {
        f.shard_paths = split_list(value);
    } else if str_eq(flag, "--replicas") {
        match parse_usize(value) {
            Some(n) => {
                f.replicas = n;
            },
            None => {
                return false;
            },
        }
    } else if str_eq(flag, "--min-writes") {
        match parse_usize(value) {
            Some(n) => {
                f.min_writes = Some(n);
            },
            None => {
                return false;
            },
        }
    } else if str_eq(flag, "--size") {
        match parse_u64(value) {
            Some(n) => {
                f.size = Some(n);
            },
            None => {
                return false;
            },
        }
    } else if str_eq(flag, "--key") {
        f.key = Some(value.to_owned());
    } else if str_eq(flag, "--prefix") {
        f.prefix = Some(value.to_owned());
    } else if str_eq(flag, "--to") {
        f.to = Some(value.to_owned());
    } else if str_eq(flag, "--from") {
        f.from = Some(value.to_owned());
    } else if str_eq(flag, "--new-shard") {
        f.new_shard = Some(value.to_owned());
    } else if str_eq(flag, "--remove") {
        f.remove = Some(value.to_owned());
    } else if str_eq(flag, "--catalog") {
        f.catalog = Some(value.to_owned());
    } else if str_eq(flag, "--batch-size") {
        match parse_usize(value) {
            Some(n) => {
                f.batch_size = Some(n);
            },
            None => {
                return false;
            },
        }
    } else {
        f.node = Some(value.to_owned());
    }
    true
}

/// Parses the arguments of a command.
pub fn parse_flags(args: &Vec<String>) -> (r: Result<CliFlags, ArgError>)
    ensures
        match r {
            Ok(f) => flags_after(no_flags(), text::views(args@)) == Ok::<FlagsSpec, ArgErrorSpec>(
                f@,
            ),
            Err(e) => flags_after(no_flags(), text::views(args@)) == Err::<FlagsSpec, ArgErrorSpec>(
                e@,
            ),
        },
{
    let ghost all = text::views(args@);
    let mut f = CliFlags {
        config: None,
        shard_paths: Vec::new(),
        replicas: 1,
        min_writes: None,
        delete_requires_min_writes: false,
        size: None,
        direct_io: false,
        key: None,
        prefix: None,
        to: None,
        from: None,
        long: false,
        new_shard: None,
        remove: None,
        catalog: None,
        batch_size: None,
        under_replicated: false,
        node: None,
    };
    let mut i: usize = 0;
    proof {
        assert(f@.shard_paths =~= Seq::<Seq<char>>::empty());
        assert(all.skip(0) =~= all);
    }
    while i < args.len()
        invariant
            i <= args.len(),
            all == text::views(args@),
            flags_after(f@, all.skip(i as int)) == flags_after(no_flags(), all),
        decreases args.len() - i,
    {
        let flag = args[i].as_str();
        proof {
            let rest = all.skip(i as int);
            assert(rest[0] == args@[i as int]@);
            assert(rest.skip(1) =~= all.skip(i + 1));
            if i + 1 < args.len() {
                assert(rest[1] == args@[i + 1]@);
                assert(rest.skip(2) =~= all.skip(i + 2));
            }
        }
        if apply_switch(&mut f, flag) {
            i = i + 1;
        } else if !needs_value(flag) {
            return Err(ArgError::Unknown(flag.to_owned()));
        } else if i + 1 >= args.len() {
            return Err(ArgError::NeedsValue(flag.to_owned()));
        } else if apply_value(&mut f, flag, args[i + 1].as_str()) {
            i = i + 2;
        } else {
            return Err(ArgError::Invalid(flag.to_owned()));
        }
    }
    assert(all.skip(i as int) =~= Seq::<Seq<char>>::empty());
    Ok(f)
}

// -- Arguments and configuration --------------------------------------------

/// The arguments of a command, completed by the configuration.
#[derive(Debug)]
pub struct CliArgs {
    pub flags: CliFlags,
    /// The shards of the configuration, or raw ones of the paths that were given.
    pub shard_confs: Vec<ShardConf>,
    pub tree_conf: Option<TreeConf>,
}

/// The arguments of a command, completed by the configuration.
pub struct ArgsSpec {
    pub flags: FlagsSpec,
    pub shard_confs: Seq<config::ShardSpec>,
    pub tree_conf: Option<config::TreeConfSpec>,
}

/// A raw shard with the usual options.
pub open spec fn plain_raw(path: Seq<char>) -> config::ShardSpec {
    config::ShardSpec::Raw {
        path,
        read_only: false,
        compression: None,
        direct_io: None,
        size_mb: None,
    }
}

/// Raw shards of some paths.
pub open spec fn plain_raws(paths: Seq<Seq<char>>) -> Seq<config::ShardSpec> {
    paths.map_values(|p: Seq<char>| plain_raw(p))
}

/// One value, or else another.
pub open spec fn either<T>(a: Option<T>, b: Option<T>) -> Option<T> {
    match a {
        Some(_) => a,
        None => b,
    }
}

/// The arguments completed by a tree: those of one of its nodes, unless they were given.
pub open spec fn with_tree(f: FlagsSpec, replicas_given: bool, tree: config::TreeConfSpec) -> Result<
    ArgsSpec,
    Seq<char>,
> {
    let name = match f.node {
        Some(n) => n,
        None => tree.root.name,
    };
    match config::find_in(tree.root, name) {
        None => Err("ERROR: node '"@ + name + "' not found in config"@),
        Some(node) => Ok(
            ArgsSpec {
                flags: FlagsSpec {
                    replicas: if replicas_given {
                        f.replicas
                    } else {
                        node.replication_factor
                    },
                    min_writes: either(f.min_writes, node.min_writes),
                    catalog: either(f.catalog, tree.catalog),
                    direct_io: f.direct_io || tree.direct_io,
                    ..f
                },
                shard_confs: node.shards,
                tree_conf: Some(tree),
            },
        ),
    }
}

/// The arguments completed by a flat configuration, unless they were given.
pub open spec fn with_flat(f: FlagsSpec, replicas_given: bool, conf: config::ClusterSpec) -> ArgsSpec {
    ArgsSpec {
        flags: FlagsSpec {
            replicas: if replicas_given {
                f.replicas
            } else {
                conf.replicas
            },
            min_writes: either(f.min_writes, conf.min_writes),
            catalog: either(f.catalog, conf.catalog),
            direct_io: f.direct_io || conf.direct_io,
            delete_requires_min_writes: f.delete_requires_min_writes
                || conf.delete_requires_min_writes,
            ..f
        },
        shard_confs: conf.shards,
        tree_conf: None,
    }
}

/// The arguments completed by the configuration, if there is one, or an error in words.
pub open spec fn with_config(f: FlagsSpec, replicas_given: bool, file: Option<Seq<char>>) -> Result<
    ArgsSpec,
    Seq<char>,
> {
    match file {
        None => Ok(ArgsSpec { flags: f, shard_confs: Seq::empty(), tree_conf: None }),
        Some(file) => if config::has_tree_form(file) {
            match config::tree_conf(file) {
                Err(e) => Err("ERROR: "@ + e),
                Ok(tree) => with_tree(f, replicas_given, tree),
            }
        } else {
            match config::cluster_conf(file) {
                Err(e) => Err("ERROR: "@ + e),
                Ok(conf) => Ok(with_flat(f, replicas_given, conf)),
            }
        },
    }
}

/// The arguments of a command. Paths of shards override those of the configuration, and
/// there must be shards.
pub open spec fn args_of(f: FlagsSpec, replicas_given: bool, file: Option<Seq<char>>) -> Result<
    ArgsSpec,
    Seq<char>,
> {
    match with_config(f, replicas_given, file) {
        Err(e) => Err(e),
        Ok(a) => {
            let shards = if f.shard_paths.len() > 0 {
                plain_raws(f.shard_paths)
            } else {
                a.shard_confs
            };
            if shards.len() == 0 {
                Err("--shards or --config required"@)
            } else {
                Ok(ArgsSpec { shard_confs: shards, ..a })
            }
        },
    }
}

impl View for CliArgs {
    type V = ArgsSpec;

    open spec fn view(&self) -> ArgsSpec {
        ArgsSpec {
            flags: self.flags@,
            shard_confs: config::shard_specs(self.shard_confs@),
            tree_conf: match self.tree_conf {
                Some(t) => Some(t@),
                None => None,
            },
        }
    }
}

/// The outcome of completing arguments, in the terms of the model.
pub open spec fn args_view(r: Result<CliArgs, String>) -> Result<ArgsSpec, Seq<char>> {
    match r {
        Ok(a) => Ok(a@),
        Err(e) => Err(e@),
    }
}

fn prefixed(prefix: &str, message: &str) -> (s: String)
    ensures
        s@ == prefix@ + message@,
{
    let mut s = prefix.to_owned();
    s.append(message);
    s
}

fn copy_shards(shards: &Vec<ShardConf>) -> (r: Vec<ShardConf>)
    ensures
        config::shard_specs(r@) == config::shard_specs(shards@),
{
    let mut r: Vec<ShardConf> = Vec::new();
    let mut i: usize = 0;
    while i < shards.len()
        invariant
            i <= shards.len(),
            r.len() == i,
            config::shard_specs(r@) == config::shard_specs(shards@).take(i as int),
        decreases shards.len() - i,
    {
        let ghost before = r@;
        let one = shards[i].clone();
        r.push(one);
        assert(config::shard_specs(r@) =~= config::shard_specs(before).push(one@));
        assert(config::shard_specs(r@) =~= config::shard_specs(shards@).take(i + 1));
        i = i + 1;
    }
    assert(config::shard_specs(shards@).take(i as int) =~= config::shard_specs(shards@));
    r
}

fn raw_shards(paths: &Vec<String>) -> (r: Vec<ShardConf>)
    ensures
        config::shard_specs(r@) == plain_raws(text::views(paths@)),
{
    let ghost want = plain_raws(text::views(paths@));
    let mut r: Vec<ShardConf> = Vec::new();
    let mut i: usize = 0;
    while i < paths.len()
        invariant
            i <= paths.len(),
            r.len() == i,
            want == plain_raws(text::views(paths@)),
            config::shard_specs(r@) == want.take(i as int),
        decreases paths.len() - i,
    {
        let ghost before = r@;
        let one = ShardConf::Raw {
            path: paths[i].clone(),
            read_only: false,
            compression: None,
            direct_io: None,
            size_mb: None,
        };
        r.push(one);
        assert(one@ == want[i as int]);
        assert(config::shard_specs(r@) =~= config::shard_specs(before).push(one@));
        assert(config::shard_specs(r@) =~= want.take(i + 1));
        i = i + 1;
    }
    assert(want.take(i as int) =~= want);
    r
}

fn text_or(a: Option<String>, b: &Option<String>) -> (r: Option<String>)
    ensures
        text::opt_view(r) == either(text::opt_view(a), text::opt_view(*b)),
{
    match a {
        Some(s) => Some(s),
        None => match b {
            Some(s) => Some(s.clone()),
            None => None,
        },
    }
}

fn number_or(a: Option<usize>, b: Option<usize>) -> (r: Option<usize>)
    ensures
        r == either(a, b),
{
    match a {
        Some(n) => Some(n),
        None => b,
    }
}

fn complete_with_tree(flags: CliFlags, replicas_given: bool, tree: TreeConf) -> (r: Result<
    CliArgs,
    String,
>)
    ensures
        args_view(r) == with_tree(flags@, replicas_given, tree@),
{
    let name = match &flags.node {
        Some(n) => n.clone(),
        None => tree.root.name.clone(),
    };
    let (shards, replicas, min_writes) = match tree.find_node(name.as_str()) {
        None => {
            let mut s = prefixed("ERROR: node '", name.as_str());
            s.append("' not found in config");
            return Err(s);
        },
        Some(node) => (copy_shards(&node.shards), node.replication_factor, node.min_writes),
    };
    let mut flags = flags;
    if !replicas_given {
        flags.replicas = replicas;
    }
    flags.min_writes = number_or(flags.min_writes, min_writes);
    flags.catalog = text_or(flags.catalog, &tree.catalog);
    flags.direct_io = flags.direct_io || tree.direct_io;
    Ok(CliArgs { flags, shard_confs: shards, tree_conf: Some(tree) })
}

fn complete(flags: CliFlags, replicas_given: bool, file: Option<&str>) -> (r: Result<
    CliArgs,
    String,
>)
    ensures
        args_view(r) == with_config(
            flags@,
            replicas_given,
            match file {
                Some(s) => Some(s@),
                None => None,
            },
        ),
{
    let file = match file {
        None => {
            let shards: Vec<ShardConf> = Vec::new();
            assert(config::shard_specs(shards@) =~= Seq::<config::ShardSpec>::empty());
            return Ok(CliArgs { flags, shard_confs: shards, tree_conf: None });
        },
        Some(s) => s,
    };
    if is_tree_config(file) {
        return match parse_tree_conf(file) {
            Err(e) => Err(prefixed("ERROR: ", e.as_str())),
            Ok(tree) => complete_with_tree(flags, replicas_given, tree),
        };
    }
    let conf = match parse_cluster_conf(file) {
        Err(e) => {
            return Err(prefixed("ERROR: ", e.as_str()));
        },
        Ok(conf) => conf,
    };
    let mut flags = flags;
    if !replicas_given {
        flags.replicas = conf.replicas;
    }
    flags.min_writes = number_or(flags.min_writes, conf.min_writes);
    flags.catalog = text_or(flags.catalog, &conf.catalog);
    flags.direct_io = flags.direct_io || conf.direct_io;
    flags.delete_requires_min_writes = flags.delete_requires_min_writes
        || conf.delete_requires_min_writes;
    Ok(CliArgs { flags, shard_confs: conf.shards, tree_conf: None })
}

/// Whether an argument is given somewhere.
pub fn is_given(args: &Vec<String>, flag: &str) -> (r: bool)
    ensures
        r == text::views(args@).contains(flag@),
{
    let ghost all = text::views(args@);
    let mut i: usize = 0;
    while i < args.len()
        invariant
            i <= args.len(),
            all == text::views(args@),
            forall|k: int| 0 <= k < i ==> (#[trigger] all[k]) != flag@,
        decreases args.len() - i,
    {
        assert(all[i as int] == args@[i as int]@);
        if str_eq(args[i].as_str(), flag) {
            return true;
        }
        i = i + 1;
    }
    false
}

/// Completes the arguments of a command by its configuration, given the contents of
/// that file if one was given, and whether the number of replicas was.
pub fn complete_args(flags: CliFlags, replicas_given: bool, file: Option<&str>) -> (r: Result<
    CliArgs,
    String,
>)
    ensures
        args_view(r) == args_of(
            flags@,
            replicas_given,
            match file {
                Some(s) => Some(s@),
                None => None,
            },
        ),
{
    let overriding = raw_shards(&flags.shard_paths);
    assert(config::shard_specs(overriding@).len() == overriding@.len());
    let mut a = complete(flags, replicas_given, file)?;
    if overriding.len() > 0 {
        a.shard_confs = overriding;
    }
    assert(config::shard_specs(a.shard_confs@).len() == a.shard_confs@.len());
    if a.shard_confs.len() == 0 {
        return Err("--shards or --config required".to_owned());
    }
    Ok(a)
}

/// The paths of the raw shards among some.
pub open spec fn raw_paths(shards: Seq<config::ShardSpec>) -> Seq<Seq<char>>
    decreases shards.len(),
{
    if shards.len() == 0 {
        Seq::empty()
    } else {
        let head = raw_paths(shards.drop_last());
        match shards.last() {
            config::ShardSpec::Raw { path, .. } => head.push(path),
            _ => head,
        }
    }
}

/// The first raw shard of a path.
pub open spec fn is_raw_at(shards: Seq<config::ShardSpec>, path: Seq<char>, i: int) -> bool {
    0 <= i < shards.len() && (shards[i] matches config::ShardSpec::Raw { path: p, .. } && p == path)
}

impl CliArgs {
    /// The paths of the raw shards.
    pub fn raw_shard_paths(&self) -> (r: Vec<String>)
        ensures
            text::views(r@) == raw_paths(self@.shard_confs),
    {
        let ghost all = config::shard_specs(self.shard_confs@);
        let mut r: Vec<String> = Vec::new();
        let mut i: usize = 0;
        assert(text::views(r@) =~= raw_paths(all.take(0)));
        while i < self.shard_confs.len()
            invariant
                i <= self.shard_confs.len(),
                all == config::shard_specs(self.shard_confs@),
                text::views(r@) == raw_paths(all.take(i as int)),
            decreases self.shard_confs.len() - i,
        {
            assert(all.take(i + 1).drop_last() =~= all.take(i as int));
            assert(all.take(i + 1).last() == self.shard_confs@[i as int]@);
            if let ShardConf::Raw { path, .. } = &self.shard_confs[i] {
                let ghost before = r@;
                r.push(path.clone());
                assert(text::views(r@) =~= text::views(before).push(path@));
            }
            i = i + 1;
        }
        assert(all.take(i as int) =~= all);
        r
    }

    /// The shard to remove, which must be a raw one: its number, or why it cannot be
    /// removed, in words. At least three shards must stay, and as many as there are
    /// copies of an object.
    pub fn shard_to_remove(&self, victim: &str) -> (r: Result<usize, String>)
        ensures
            match r {
                Ok(i) => is_raw_at(self@.shard_confs, victim@, i as int) && (forall|j: int|
                    0 <= j < i ==> !(#[trigger] is_raw_at(self@.shard_confs, victim@, j)))
                    && removal_error(self@, victim@) is None,
                Err(e) => removal_error(self@, victim@) == Some(e@),
            },
    {
        let ghost all = config::shard_specs(self.shard_confs@);
        assert(all.len() == self.shard_confs@.len());
        let mut i: usize = 0;
        while i < self.shard_confs.len()
            invariant
                i <= self.shard_confs.len(),
                all == config::shard_specs(self.shard_confs@),
                all.len() == self.shard_confs@.len(),
                forall|j: int| 0 <= j < i ==> !(#[trigger] is_raw_at(all, victim@, j)),
            decreases self.shard_confs.len() - i,
        {
            assert(all[i as int] == self.shard_confs@[i as int]@);
            if let ShardConf::Raw { path, .. } = &self.shard_confs[i] {
                if str_eq(path.as_str(), victim) {
                    assert(is_raw_at(all, victim@, i as int));
                    let remaining: usize = self.shard_confs.len() - 1;
                    assert(remaining as nat == (self@.shard_confs.len() - 1) as nat);
                    assert(is_raw_at(self@.shard_confs, victim@, i as int));
                    if remaining < 3 {
                        let mut s = prefixed(
                            "Error: cannot remove shard -- only ",
                            text::number(remaining as u64).as_str(),
                        );
                        s.append(" shards would remain (minimum 3 required).");
                        return Err(s);
                    }
                    if remaining < self.flags.replicas {
                        let mut s = prefixed(
                            "Error: cannot remove shard -- ",
                            text::number(remaining as u64).as_str(),
                        );
                        s.append(" remaining shards < replication factor ");
                        s.append(text::number(self.flags.replicas as u64).as_str());
                        s.append(".");
                        return Err(s);
                    }
                    return Ok(i);
                }
            }
            i = i + 1;
        }
        let mut s = prefixed("Error: '", victim);
        s.append("' is not a raw shard in the cluster");
        Err(s)
    }
}

/// Why a shard cannot be removed, in words: it is no raw shard, fewer than three shards
/// would stay, or fewer than there are copies of an object. Otherwise it can be.
pub open spec fn removal_error(a: ArgsSpec, victim: Seq<char>) -> Option<Seq<char>> {
    let remaining = (a.shard_confs.len() - 1) as nat;
    if !(exists|i: int| #[trigger] is_raw_at(a.shard_confs, victim, i)) {
        Some("Error: '"@ + victim + "' is not a raw shard in the cluster"@)
    } else if remaining < 3 {
        Some(
            "Error: cannot remove shard -- only "@ + text::decimal(remaining)
                + " shards would remain (minimum 3 required)."@,
        )
    } else if remaining < a.flags.replicas {
        Some(
            "Error: cannot remove shard -- "@ + text::decimal(remaining)
                + " remaining shards < replication factor "@ + text::decimal(
                a.flags.replicas as nat,
            ) + "."@,
        )
    } else {
        None
    }
}

// -- Catalogs ---------------------------------------------------------------

/// How a catalog is kept, as the command line says it: `none`, `json:` or `bincode:`
/// (`bin:` for short) and a path, or a path alone, which means JSON.
pub open spec fn catalog_of(s: Seq<char>) -> Option<persistence::Persistence> {
    if s == "none"@ {
        None
    } else {
        match text::after_prefix(s, "json:"@) {
            Some(path) => Some(persistence::Persistence::Json(path)),
            None => match config::after_either(s, "bincode:"@, "bin:"@) {
                Some(path) => Some(persistence::Persistence::Bincode(path)),
                None => Some(persistence::Persistence::Json(s)),
            },
        }
    }
}

/// How a catalog is kept, as the command line says it.
pub fn parse_catalog_persistence(s: &str) -> (r: Option<CatalogPersistence>)
    ensures
        (match r {
            Some(p) => Some(p@),
            None => None,
        }) == catalog_of(s@),
{
    if str_eq(s, "none") {
        return None;
    }
    if let Some(path) = strip_prefix(s, "json:") {
        return Some(CatalogPersistence::json(path));
    }
    if let Some(path) = strip_prefix(s, "bincode:") {
        return Some(CatalogPersistence::bincode(path));
    }
    if let Some(path) = strip_prefix(s, "bin:") {
        return Some(CatalogPersistence::bincode(path));
    }
    Some(CatalogPersistence::json(s))
}

/// The format of a catalog file that is viewed.
#[derive(Debug, Clone, Copy, PartialEq, Eq, Structural)]
pub enum ViewFormat {
    Json,
    Bincode,
    /// JSON first, and binary if there is nothing in it.
    Auto,
    /// A format that is not known.
    Unknown,
}

/// The format of a catalog file: the one that is asked for, or else the one that the
/// extension of its name tells.
pub open spec fn view_format(asked: Option<Seq<char>>, extension: Option<Seq<char>>) -> ViewFormat {
    match asked {
        Some(f) => if f == "json"@ {
            ViewFormat::Json
        } else if f == "bin"@ {
            ViewFormat::Bincode
        } else if f == "auto"@ {
            ViewFormat::Auto
        } else {
            ViewFormat::Unknown
        },
        None => match extension {
            Some(e) => if e == "json"@ {
                ViewFormat::Json
            } else if e == "bin"@ {
                ViewFormat::Bincode
            } else {
                ViewFormat::Auto
            },
            None => ViewFormat::Auto,
        },
    }
}

/// The format of a catalog file: the one that is asked for, or else the one that the
/// extension of its name tells.
pub fn choose_format(asked: Option<&str>, extension: Option<&str>) -> (r: ViewFormat)
    ensures
        r == view_format(
            match asked {
                Some(s) => Some(s@),
                None => None,
            },
            match extension {
                Some(s) => Some(s@),
                None => None,
            },
        ),
{
    match asked {
        Some(f) => {
            if str_eq(f, "json") {
                ViewFormat::Json
            } else if str_eq(f, "bin") {
                ViewFormat::Bincode
            } else if str_eq(f, "auto") {
                ViewFormat::Auto
            } else {
                ViewFormat::Unknown
            }
        },
        None => match extension {
            Some(e) => {
                if str_eq(e, "json") {
                    ViewFormat::Json
                } else if str_eq(e, "bin") {
                    ViewFormat::Bincode
                } else {
                    ViewFormat::Auto
                }
            },
            None => ViewFormat::Auto,
        },
    }
}

// -- Laws -------------------------------------------------------------------

/// What is given on the command line wins over the configuration, and there are shards.
pub proof fn what_is_given_wins(f: FlagsSpec, replicas_given: bool, file: Option<Seq<char>>)
    ensures
        args_of(f, replicas_given, file) matches Ok(a) ==> {
            &&& a.shard_confs.len() > 0
            &&& f.shard_paths.len() > 0 ==> a.shard_confs == plain_raws(f.shard_paths)
            &&& replicas_given ==> a.flags.replicas == f.replicas
            &&& f.min_writes is Some ==> a.flags.min_writes == f.min_writes
            &&& f.catalog is Some ==> a.flags.catalog == f.catalog
            &&& f.direct_io ==> a.flags.direct_io
            &&& f.delete_requires_min_writes ==> a.flags.delete_requires_min_writes
        },
{
}

proof fn lemma_flags_differ()
    ensures
        "--config"@.len() == 8 && "--config"@[2] == 'c',
        "--shards"@.len() == 8 && "--shards"@[2] == 's',
        "--replicas"@.len() == 10,
        "--min-writes"@.len() == 12 && "--min-writes"@[2] == 'm',
        "--size"@.len() == 6 && "--size"@[2] == 's',
        "--key"@.len() == 5,
        "--prefix"@.len() == 8 && "--prefix"@[2] == 'p',
        "--to"@.len() == 4,
        "--from"@.len() == 6 && "--from"@[2] == 'f',
        "--new-shard"@.len() == 11 && "--new-shard"@[2] == 'n',
        "--remove"@.len() == 8 && "--remove"@[2] == 'r',
        "--catalog"@.len() == 9,
        "--batch-size"@.len() == 12 && "--batch-size"@[2] == 'b',
        "--node"@.len() == 6 && "--node"@[2] == 'n',
        "--delete-requires-min-writes"@.len() == 28,
        "--direct-io"@.len() == 11 && "--direct-io"@[2] == 'd',
        "--long"@.len() == 6 && "--long"@[2] == 'l',
        "-l"@.len() == 2,
        "--under-replicated"@.len() == 18,
{
    reveal_strlit("--config");
    reveal_strlit("--shards");
    reveal_strlit("--replicas");
    reveal_strlit("--min-writes");
    reveal_strlit("--size");
    reveal_strlit("--key");
    reveal_strlit("--prefix");
    reveal_strlit("--to");
    reveal_strlit("--from");
    reveal_strlit("--new-shard");
    reveal_strlit("--remove");
    reveal_strlit("--catalog");
    reveal_strlit("--batch-size");
    reveal_strlit("--node");
    reveal_strlit("--delete-requires-min-writes");
    reveal_strlit("--direct-io");
    reveal_strlit("--long");
    reveal_strlit("-l");
    reveal_strlit("--under-replicated");
}

/// A flag with a text sets what it names, and nothing else.
pub proof fn a_flag_sets_the_text_that_it_names(f: FlagsSpec, value: Seq<char>)
    ensures
        valued(f, "--config"@, value) == Some(FlagsSpec { config: Some(value), ..f }),
        valued(f, "--key"@, value) == Some(FlagsSpec { key: Some(value), ..f }),
        valued(f, "--prefix"@, value) == Some(FlagsSpec { prefix: Some(value), ..f }),
        valued(f, "--to"@, value) == Some(FlagsSpec { to: Some(value), ..f }),
        valued(f, "--from"@, value) == Some(FlagsSpec { from: Some(value), ..f }),
        valued(f, "--new-shard"@, value) == Some(FlagsSpec { new_shard: Some(value), ..f }),
        valued(f, "--remove"@, value) == Some(FlagsSpec { remove: Some(value), ..f }),
        valued(f, "--catalog"@, value) == Some(FlagsSpec { catalog: Some(value), ..f }),
        valued(f, "--node"@, value) == Some(FlagsSpec { node: Some(value), ..f }),
{
    lemma_flags_differ();
}

/// A flag with a number sets what it names, and nothing else, and is refused without one.
pub proof fn a_flag_sets_the_number_that_it_names(f: FlagsSpec, k: usize, n: u64, value: Seq<char>)
    ensures
        valued(f, "--replicas"@, text::decimal(k as nat)) == Some(FlagsSpec { replicas: k, ..f }),
        valued(f, "--min-writes"@, text::decimal(k as nat)) == Some(
            FlagsSpec { min_writes: Some(k), ..f },
        ),
        valued(f, "--batch-size"@, text::decimal(k as nat)) == Some(
            FlagsSpec { batch_size: Some(k), ..f },
        ),
        valued(f, "--size"@, text::decimal(n as nat)) == Some(FlagsSpec { size: Some(n), ..f }),
        text::parsed_number(value, usize::MAX as nat) is None ==> {
            &&& valued(f, "--replicas"@, value) is None
            &&& valued(f, "--min-writes"@, value) is None
            &&& valued(f, "--batch-size"@, value) is None
        },
        text::parsed_number(value, u64::MAX as nat) is None ==> valued(f, "--size"@, value) is None,
{
    lemma_flags_differ();
    text::a_number_is_read_back_from_its_digits(k as nat, usize::MAX as nat, value);
    text::a_number_is_read_back_from_its_digits(n as nat, u64::MAX as nat, value);
}

/// A flag without a value turns on what it names, and nothing else.
pub proof fn a_switch_turns_on_what_it_names(f: FlagsSpec)
    ensures
        switched(f, "--delete-requires-min-writes"@) == Some(
            FlagsSpec { delete_requires_min_writes: true, ..f },
        ),
        switched(f, "--direct-io"@) == Some(FlagsSpec { direct_io: true, ..f }),
        switched(f, "--long"@) == Some(FlagsSpec { long: true, ..f }),
        switched(f, "-l"@) == Some(FlagsSpec { long: true, ..f }),
        switched(f, "--under-replicated"@) == Some(FlagsSpec { under_replicated: true, ..f }),
{
    lemma_flags_differ();
}

/// The paths of shards are what stands between commas, without white space around it.
pub proof fn shard_paths_are_parted_by_commas(f: FlagsSpec, a: Seq<char>, b: Seq<char>)
    requires
        !a.contains(','),
    ensures
        valued(f, "--shards"@, a) == Some(
            FlagsSpec { shard_paths: seq![text::trimmed(a)], ..f },
        ),
        ({
            let all = valued(f, "--shards"@, a.push(',') + b);
            let rest = valued(f, "--shards"@, b);
            &&& all is Some && rest is Some
            &&& all->0.shard_paths == seq![text::trimmed(a)] + rest->0.shard_paths
            &&& all->0 == FlagsSpec { shard_paths: all->0.shard_paths, ..f }
        }),
{
    lemma_flags_differ();
    let stop = |c: char| c == ',';
    let s = a.push(',') + b;
    let n = a.len() as int;
    assert(s[n] == ',');
    assert forall|i: int| 0 <= i < n implies !stop(#[trigger] s[i]) by {
        assert(s[i] == a[i]);
    }
    text::lemma_span(s, stop, n);
    assert(s.take(n) =~= a);
    assert(s.skip(n + 1) =~= b);
    assert forall|i: int| 0 <= i < n implies !stop(#[trigger] a[i]) by {}
    text::lemma_span(a, stop, n);
    assert(all_trimmed(pieces(a)) =~= seq![text::trimmed(a)]);
    assert(all_trimmed(pieces(s)) =~= seq![text::trimmed(a)] + all_trimmed(pieces(b)));
}

/// Whether an argument is a flag.
pub open spec fn is_flag(arg: Seq<char>) -> bool {
    takes_value(arg) || arg == "--delete-requires-min-writes"@ || arg == "--direct-io"@ || arg
        == "--long"@ || arg == "-l"@ || arg == "--under-replicated"@
}

/// Arguments are taken in turn: a switch alone, another flag with what stands behind it.
/// What is no flag, a flag without a value and a value that is no number are refused.
pub proof fn arguments_are_taken_in_turn(
    f: FlagsSpec,
    arg: Seq<char>,
    value: Seq<char>,
    rest: Seq<Seq<char>>,
)
    ensures
        flags_after(f, Seq::empty()) == Ok::<FlagsSpec, ArgErrorSpec>(f),
        !is_flag(arg) ==> flags_after(f, seq![arg] + rest) == Err::<FlagsSpec, ArgErrorSpec>(
            ArgErrorSpec::Unknown(arg),
        ),
        is_flag(arg) && !takes_value(arg) ==> switched(f, arg) is Some && flags_after(
            f,
            seq![arg] + rest,
        ) == flags_after(switched(f, arg)->0, rest),
        takes_value(arg) ==> flags_after(f, seq![arg]) == Err::<FlagsSpec, ArgErrorSpec>(
            ArgErrorSpec::NeedsValue(arg),
        ),
        takes_value(arg) && valued(f, arg, value) is None ==> flags_after(
            f,
            seq![arg, value] + rest,
        ) == Err::<FlagsSpec, ArgErrorSpec>(ArgErrorSpec::Invalid(arg)),
        takes_value(arg) && valued(f, arg, value) is Some ==> flags_after(
            f,
            seq![arg, value] + rest,
        ) == flags_after(valued(f, arg, value)->0, rest),
{
    lemma_flags_differ();
    let one = seq![arg] + rest;
    let two = seq![arg, value] + rest;
    assert(one[0] == arg && one.skip(1) =~= rest);
    assert(two[0] == arg && two[1] == value && two.skip(2) =~= rest);
}

/// Nothing is set without arguments, but for one copy of each object.
pub proof fn no_arguments_set_nothing()
    ensures
        ({
            let f = no_flags();
            &&& f.replicas == 1 && f.shard_paths.len() == 0
            &&& f.config is None && f.min_writes is None && f.size is None && f.key is None
            &&& f.prefix is None && f.to is None && f.from is None && f.new_shard is None
            &&& f.remove is None && f.catalog is None && f.batch_size is None && f.node is None
            &&& !f.delete_requires_min_writes && !f.direct_io && !f.long && !f.under_replicated
        }),
{
}

/// What is not given on the command line is taken from a flat configuration, and all that
/// no configuration sets stays as it was given.
pub proof fn a_configuration_completes_what_is_not_given(
    f: FlagsSpec,
    replicas_given: bool,
    file: Seq<char>,
)
    ensures
        !config::has_tree_form(file) ==> (args_of(f, replicas_given, Some(file)) matches Ok(a) ==> (
        config::cluster_conf(file) matches Ok(c) && {
            &&& !replicas_given ==> a.flags.replicas == c.replicas
            &&& f.min_writes is None ==> a.flags.min_writes == c.min_writes
            &&& f.catalog is None ==> a.flags.catalog == c.catalog
            &&& a.flags.direct_io <==> f.direct_io || c.direct_io
            &&& a.flags.delete_requires_min_writes <==> f.delete_requires_min_writes
                || c.delete_requires_min_writes
            &&& f.shard_paths.len() == 0 ==> a.shard_confs == c.shards
            &&& a.tree_conf is None
        })),
        args_of(f, replicas_given, Some(file)) matches Ok(a) ==> {
            &&& a.flags.config == f.config && a.flags.shard_paths == f.shard_paths
            &&& a.flags.size == f.size && a.flags.key == f.key && a.flags.prefix == f.prefix
            &&& a.flags.to == f.to && a.flags.from == f.from && a.flags.long == f.long
            &&& a.flags.new_shard == f.new_shard && a.flags.remove == f.remove
            &&& a.flags.batch_size == f.batch_size && a.flags.node == f.node
            &&& a.flags.under_replicated == f.under_replicated
        },
        args_of(f, replicas_given, None) matches Ok(a) ==> a.flags == f && a.tree_conf is None,
        args_of(f, replicas_given, None) is Ok <==> f.shard_paths.len() > 0,
        config::cluster_conf(file) is Ok && !config::has_tree_form(file) ==> args_of(
            f,
            replicas_given,
            Some(file),
        ) is Ok,
{
    if let Ok(c) = config::cluster_conf(file) {
        config::an_accepted_cluster_makes_sense(file);
    }
}

/// With a tree, what is not given is taken from the node that is named, or else from the
/// root. There must be a node of that name.
pub proof fn a_node_completes_what_is_not_given(
    f: FlagsSpec,
    replicas_given: bool,
    tree: config::TreeConfSpec,
)
    ensures
        ({
            let name = match f.node {
                Some(n) => n,
                None => tree.root.name,
            };
            let r = with_tree(f, replicas_given, tree);
            &&& r is Ok <==> config::has_node(tree.root, name)
            &&& r matches Ok(a) ==> exists|node: config::TreeSpec|
                {
                    &&& #[trigger] config::find_in(tree.root, name) == Some(node)
                    &&& node.name == name
                    &&& !replicas_given ==> a.flags.replicas == node.replication_factor
                    &&& replicas_given ==> a.flags.replicas == f.replicas
                    &&& f.min_writes is None ==> a.flags.min_writes == node.min_writes
                    &&& f.catalog is None ==> a.flags.catalog == tree.catalog
                    &&& a.flags.direct_io <==> f.direct_io || tree.direct_io
                    &&& a.shard_confs == node.shards
                    &&& a.tree_conf == Some(tree)
                }
            &&& f.node is None ==> r is Ok && r->Ok_0.shard_confs == tree.root.shards
        }),
{
    let name = match f.node {
        Some(n) => n,
        None => tree.root.name,
    };
    config::a_node_is_found_by_its_name(tree.root, name);
}

/// A shard can be removed exactly if it is a raw shard of the cluster, and three shards and
/// as many as there are copies of an object stay.
pub proof fn a_shard_is_removed_only_if_enough_stay(a: ArgsSpec, victim: Seq<char>)
    ensures
        removal_error(a, victim) is None <==> raw_paths(a.shard_confs).contains(victim)
            && a.shard_confs.len() >= 4 && a.shard_confs.len() > a.flags.replicas,
{
    lemma_raw_path(a.shard_confs, victim);
}

proof fn lemma_raw_path(shards: Seq<config::ShardSpec>, path: Seq<char>)
    ensures
        raw_paths(shards).contains(path) <==> exists|i: int| #[trigger] is_raw_at(shards, path, i),
    decreases shards.len(),
{
    if shards.len() > 0 {
        let head = shards.drop_last();
        let all = raw_paths(shards);
        lemma_raw_path(head, path);
        if exists|i: int| #[trigger] is_raw_at(shards, path, i) {
            let i = choose|i: int| #[trigger] is_raw_at(shards, path, i);
            if i < head.len() {
                assert(is_raw_at(head, path, i));
                let k = raw_paths(head).index_of(path);
                assert(all[k] == path);
            } else {
                assert(all[raw_paths(head).len() as int] == path);
            }
        }
        if all.contains(path) {
            let k = all.index_of(path);
            if k < raw_paths(head).len() {
                assert(raw_paths(head)[k] == path);
                let i = choose|i: int| #[trigger] is_raw_at(head, path, i);
                assert(is_raw_at(shards, path, i));
            } else {
                assert(is_raw_at(shards, path, shards.len() - 1));
            }
        }
    }
}

/// A path behind `json:`, or alone, means JSON, one behind `bincode:` or `bin:` means
/// bincode, and `none` means no catalog.
pub proof fn a_catalog_is_told_by_its_prefix(path: Seq<char>)
    ensures
        catalog_of("none"@) is None,
        catalog_of("json:"@ + path) == Some(persistence::Persistence::Json(path)),
        catalog_of("bincode:"@ + path) == Some(persistence::Persistence::Bincode(path)),
        catalog_of("bin:"@ + path) == Some(persistence::Persistence::Bincode(path)),
        path != "none"@ && !path.contains(':') ==> catalog_of(path) == Some(
            persistence::Persistence::Json(path),
        ),
{
    reveal_strlit("none");
    reveal_strlit("json:");
    reveal_strlit("bincode:");
    reveal_strlit("bin:");
    let j = "json:"@ + path;
    let c = "bincode:"@ + path;
    let b = "bin:"@ + path;
    config::lemma_after("json:"@, path);
    config::lemma_after("bincode:"@, path);
    config::lemma_after("bin:"@, path);
    assert("none"@[0] == 'n' && j[0] == 'j' && c[0] == 'b' && b[0] == 'b');
    config::lemma_not_after(c, "json:"@, 0);
    config::lemma_not_after(b, "json:"@, 0);
    assert(b[3] == ':' && "bincode:"@[3] == 'c');
    config::lemma_not_after(b, "bincode:"@, 3);
    if !path.contains(':') {
        if path.len() > 4 {
            assert(path[4] != ':');
        }
        config::lemma_not_after(path, "json:"@, 4);
        if path.len() > 7 {
            assert(path[7] != ':');
        }
        config::lemma_not_after(path, "bincode:"@, 7);
        if path.len() > 3 {
            assert(path[3] != ':');
        }
        config::lemma_not_after(path, "bin:"@, 3);
    }
}

/// A format that is asked for is the one that counts. Without one, the extension tells the
/// format as if it had been asked for, and any other is to be found out.
pub proof fn the_format_that_is_asked_for_counts(s: Seq<char>, e: Option<Seq<char>>)
    ensures
        view_format(Some("json"@), e) == ViewFormat::Json,
        view_format(Some("bin"@), e) == ViewFormat::Bincode,
        view_format(Some("auto"@), e) == ViewFormat::Auto,
        s != "json"@ && s != "bin"@ && s != "auto"@ ==> view_format(Some(s), e)
            == ViewFormat::Unknown,
        s == "json"@ || s == "bin"@ ==> view_format(None, Some(s)) == view_format(Some(s), e),
        s != "json"@ && s != "bin"@ ==> view_format(None, Some(s)) == ViewFormat::Auto,
        view_format(None, None) == ViewFormat::Auto,
{
    reveal_strlit("json");
    reveal_strlit("bin");
    reveal_strlit("auto");
    assert("json"@[0] != "auto"@[0]);
    assert("json"@.len() != "bin"@.len());
}

} // verus!
