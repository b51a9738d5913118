//! Diagnostics on a parsed configuration.
//!
//! What a diagnosis needs to know of the machine (which paths exist, which
//! compression names are known) is handed in as plain values.

use vstd::prelude::*;
use vstd::string::*;
use crate::config;
use crate::config::{ClusterConf, ShardConf, TreeNode};
use crate::text;
use crate::text::{around, number};

verus! {

/// Severity of a diagnostic.
#[derive(Debug, Clone, Copy, PartialEq, Eq, Structural)]
pub enum ClusterDiagLevel {
    Error,
    Warning,
    Info,
}

impl ClusterDiagLevel {
    /// The level in words.
    pub fn label(&self) -> (r: &'static str)
        ensures
            r@ == (match *self {
                ClusterDiagLevel::Error => "ERROR"@,
                ClusterDiagLevel::Warning => "WARN"@,
                ClusterDiagLevel::Info => "INFO"@,
            }),
    {
        match self {
            ClusterDiagLevel::Error => "ERROR",
            ClusterDiagLevel::Warning => "WARN",
            ClusterDiagLevel::Info => "INFO",
        }
    }
}

/// A single diagnostic.
#[derive(Debug)]
pub struct ClusterDiag {
    pub level: ClusterDiagLevel,
    pub message: String,
}

/// What a diagnostic says.
pub struct Finding {
    pub level: ClusterDiagLevel,
    pub message: Seq<char>,
}

impl View for ClusterDiag {
    type V = Finding;

    open spec fn view(&self) -> Finding {
        Finding { level: self.level, message: self.message@ }
    }
}

/// What the diagnostics of a list say.
pub open spec fn findings(diags: Seq<ClusterDiag>) -> Seq<Finding> {
    Seq::new(diags.len(), |i: int| diags[i]@)
}

/// What the machine says about the path of a shard.
#[derive(Debug)]
pub struct PathFacts {
    /// Whether the path exists.
    pub exists: bool,
    /// The parent directory of the path, if it has one.
    pub parent: Option<String>,
    /// Whether the parent directory exists.
    pub parent_exists: bool,
    /// Whether the compression of the shard, if it names one, is known.
    pub compression_known: bool,
}

fn report(diags: &mut Vec<ClusterDiag>, level: ClusterDiagLevel, message: String)
    ensures
        findings(final(diags)@) == findings(old(diags)@).push(Finding { level, message: message@ }),
{
    let ghost before = diags@;
    diags.push(ClusterDiag { level, message });
    assert(findings(diags@) =~= findings(before).push(Finding { level, message: message@ }));
}

/// A message about a shard.
pub open spec fn shard_message(i: nat, kind: Seq<char>, rest: Seq<char>) -> Seq<char> {
    "shard "@ + text::decimal(i) + " ("@ + kind + "): "@ + rest
}

fn shard_text(i: usize, kind: &str, rest: &str) -> (s: String)
    ensures
        s@ == shard_message(i as nat, kind@, rest@),
{
    let mut s = "shard ".to_owned();
    s.append(number(i as u64).as_str());
    s.append(" (");
    s.append(kind);
    s.append("): ");
    s.append(rest);
    s
}

/// The findings on a raw shard.
pub open spec fn raw_findings(
    found: Seq<Finding>,
    i: nat,
    path: Seq<char>,
    compression: Option<Seq<char>>,
    has_size: bool,
    facts: PathFacts,
) -> Seq<Finding> {
    let a = if facts.exists {
        found
    } else if has_size {
        found.push(
            Finding {
                level: ClusterDiagLevel::Info,
                message: shard_message(
                    i,
                    "raw"@,
                    "'"@ + path + "' does not exist (will be formatted)"@,
                ),
            },
        )
    } else {
        found.push(
            Finding {
                level: ClusterDiagLevel::Warning,
                message: shard_message(
                    i,
                    "raw"@,
                    "'"@ + path + "' does not exist and no size_mb set"@,
                ),
            },
        )
    };
    let b = match facts.parent {
        Some(parent) => if parent@.len() > 0 && !facts.parent_exists {
            a.push(
                Finding {
                    level: ClusterDiagLevel::Error,
                    message: shard_message(
                        i,
                        "raw"@,
                        "parent directory '"@ + parent@ + "' does not exist"@,
                    ),
                },
            )
        } else {
            a
        },
        None => a,
    };
    match compression {
        Some(name) => if !facts.compression_known {
            b.push(
                Finding {
                    level: ClusterDiagLevel::Error,
                    message: shard_message(i, "raw"@, "unknown compression '"@ + name + "'"@),
                },
            )
        } else {
            b
        },
        None => b,
    }
}

/// The findings on one shard, after those found before. `default_size` tells
/// whether the file sets a size for all raw shards.
pub open spec fn shard_findings(
    found: Seq<Finding>,
    i: nat,
    shard: config::ShardSpec,
    default_size: bool,
    facts: PathFacts,
) -> Seq<Finding> {
    match shard {
        config::ShardSpec::Raw { path, compression, size_mb, .. } => raw_findings(
            found,
            i,
            path,
            compression,
            size_mb is Some || default_size,
            facts,
        ),
        config::ShardSpec::Fs { root, .. } => if facts.exists {
            found
        } else {
            found.push(
                Finding {
                    level: ClusterDiagLevel::Warning,
                    message: shard_message(
                        i,
                        "fs"@,
                        "directory '"@ + root + "' does not exist"@,
                    ),
                },
            )
        },
        config::ShardSpec::S3 { endpoint, bucket, .. } => {
            let a = if endpoint.len() == 0 {
                found.push(
                    Finding {
                        level: ClusterDiagLevel::Error,
                        message: shard_message(i, "s3"@, "empty endpoint"@),
                    },
                )
            } else {
                found
            };
            if bucket.len() == 0 {
                a.push(
                    Finding {
                        level: ClusterDiagLevel::Error,
                        message: shard_message(i, "s3"@, "empty bucket"@),
                    },
                )
            } else {
                a
            }
        },
        config::ShardSpec::Mem => found,
        config::ShardSpec::Node(_) => found,
    }
}

/// The findings on the first `n` shards, after those found before.
pub open spec fn shards_findings(
    found: Seq<Finding>,
    shards: Seq<config::ShardSpec>,
    default_size: bool,
    facts: Seq<PathFacts>,
    n: nat,
) -> Seq<Finding>
    decreases n,
{
    if n == 0 {
        found
    } else {
        let i = (n - 1) as nat;
        shard_findings(
            shards_findings(found, shards, default_size, facts, i),
            i,
            shards[i as int],
            default_size,
            facts[i as int],
        )
    }
}

/// The findings on the cluster as a whole, before those on its shards.
pub open spec fn cluster_findings(conf: config::ClusterSpec, compression_known: bool) -> Seq<
    Finding,
> {
    let a = if conf.replicas > conf.shards.len() {
        seq![
            Finding {
                level: ClusterDiagLevel::Warning,
                message: "replicas ("@ + text::decimal(conf.replicas as nat)
                    + ") exceeds shard count ("@ + text::decimal(conf.shards.len())
                    + ") -- will be clamped"@,
            },
        ]
    } else {
        Seq::empty()
    };
    match conf.compression {
        Some(name) => if !compression_known {
            a.push(
                Finding {
                    level: ClusterDiagLevel::Error,
                    message: "unknown global compression '"@ + name + "'"@,
                },
            )
        } else {
            a
        },
        None => a,
    }
}

/// The closing summary.
pub open spec fn summary(conf: config::ClusterSpec) -> Finding {
    Finding {
        level: ClusterDiagLevel::Info,
        message: text::decimal(conf.shards.len()) + " shard(s), replicas="@ + text::decimal(
            conf.replicas as nat,
        ) + ", catalog="@ + (match conf.catalog {
            Some(c) => c,
            None => "none"@,
        }),
    }
}

/// All findings on a configuration.
pub open spec fn validation(
    conf: config::ClusterSpec,
    compression_known: bool,
    facts: Seq<PathFacts>,
) -> Seq<Finding> {
    shards_findings(
        cluster_findings(conf, compression_known),
        conf.shards,
        conf.size_mb is Some,
        facts,
        conf.shards.len(),
    ).push(summary(conf))
}

/// Adds the findings on one shard.
fn check_shard(
    diags: &mut Vec<ClusterDiag>,
    i: usize,
    shard: &ShardConf,
    default_size: bool,
    facts: &PathFacts,
)
    ensures
        findings(final(diags)@) == shard_findings(
            findings(old(diags)@),
            i as nat,
            shard@,
            default_size,
            *facts,
        ),
{
    match shard {
        ShardConf::Raw { path, compression, size_mb, .. } => {
            if !facts.exists {
                if size_mb.is_some() || default_size {
                    let m = around("'", path.as_str(), "' does not exist (will be formatted)");
                    report(diags, ClusterDiagLevel::Info, shard_text(i, "raw", m.as_str()));
                } else {
                    let m = around("'", path.as_str(), "' does not exist and no size_mb set");
                    report(diags, ClusterDiagLevel::Warning, shard_text(i, "raw", m.as_str()));
                }
            }
            if let Some(parent) = &facts.parent {
                if !parent.as_str().is_empty() && !facts.parent_exists {
                    let m = around("parent directory '", parent.as_str(), "' does not exist");
                    report(diags, ClusterDiagLevel::Error, shard_text(i, "raw", m.as_str()));
                }
            }
            if let Some(name) = compression {
                if !facts.compression_known {
                    let m = around("unknown compression '", name.as_str(), "'");
                    report(diags, ClusterDiagLevel::Error, shard_text(i, "raw", m.as_str()));
                }
            }
        },
        ShardConf::Fs { root, .. } => {
            if !facts.exists {
                let m = around("directory '", root.as_str(), "' does not exist");
                report(diags, ClusterDiagLevel::Warning, shard_text(i, "fs", m.as_str()));
            }
        },
        ShardConf::S3 { endpoint, bucket, .. } => {
            if endpoint.as_str().is_empty() {
                report(diags, ClusterDiagLevel::Error, shard_text(i, "s3", "empty endpoint"));
            }
            if bucket.as_str().is_empty() {
                report(diags, ClusterDiagLevel::Error, shard_text(i, "s3", "empty bucket"));
            }
        },
        ShardConf::Mem => {},
        ShardConf::Node(_) => {},
    }
}

/// Validates a parsed configuration.
///
/// `compression_known` tells whether the global compression, if there is one, is
/// known; `facts` holds what the machine says of each shard.
pub fn validate_cluster_conf(
    conf: &ClusterConf,
    compression_known: bool,
    facts: &Vec<PathFacts>,
) -> (diags: Vec<ClusterDiag>)
    requires
        facts.len() == conf.shards.len(),
    ensures
        findings(diags@) == validation(conf@, compression_known, facts@),
{
    let mut diags: Vec<ClusterDiag> = Vec::new();
    assert(findings(diags@) =~= Seq::<Finding>::empty());
    if conf.replicas > conf.shards.len() {
        let mut m = "replicas (".to_owned();
        m.append(number(conf.replicas as u64).as_str());
        m.append(") exceeds shard count (");
        m.append(number(conf.shards.len() as u64).as_str());
        m.append(") -- will be clamped");
        report(&mut diags, ClusterDiagLevel::Warning, m);
    }
    if let Some(name) = &conf.compression {
        if !compression_known {
            let m = around("unknown global compression '", name.as_str(), "'");
            report(&mut diags, ClusterDiagLevel::Error, m);
        }
    }
    let ghost start = cluster_findings(conf@, compression_known);
    assert(findings(diags@) =~= start);
    let mut i: usize = 0;
    while i < conf.shards.len()
        invariant
            i <= conf.shards.len(),
            facts.len() == conf.shards.len(),
            findings(diags@) == shards_findings(
                start,
                conf@.shards,
                conf.size_mb is Some,
                facts@,
                i as nat,
            ),
        decreases conf.shards.len() - i,
    {
        check_shard(&mut diags, i, &conf.shards[i], conf.size_mb.is_some(), &facts[i]);
        i = i + 1;
    }
    let mut m = number(conf.shards.len() as u64);
    m.append(" shard(s), replicas=");
    m.append(number(conf.replicas as u64).as_str());
    m.append(", catalog=");
    match &conf.catalog {
        Some(c) => m.append(c.as_str()),
        None => m.append("none"),
    }
    report(&mut diags, ClusterDiagLevel::Info, m);
    diags
}

/// The findings on one node, without its children.
pub open spec fn node_findings(found: Seq<Finding>, node: config::TreeSpec, indent: Seq<char>) -> Seq<
    Finding,
> {
    let head = indent + "node '"@ + node.name + "': "@;
    let rf = text::decimal(node.replication_factor as nat);
    let shards = text::decimal(node.shards.len());
    let a = if node.shards.len() > 0 && node.replication_factor > node.shards.len() {
        found.push(
            Finding {
                level: ClusterDiagLevel::Warning,
                message: head + "rf="@ + rf + " exceeds shard count ("@ + shards
                    + ") -- will be clamped"@,
            },
        )
    } else {
        found
    };
    let b = if node.shards.len() == 0 && node.children.len() == 0 {
        a.push(
            Finding {
                level: ClusterDiagLevel::Warning,
                message: head + "no shards and no children"@,
            },
        )
    } else {
        a
    };
    b.push(
        Finding {
            level: ClusterDiagLevel::Info,
            message: head + "rf="@ + rf + ", "@ + shards + " shard(s), "@ + text::decimal(
                node.children.len(),
            ) + " child(ren)"@,
        },
    )
}

/// The findings on a tree: on a node, then on its children.
pub open spec fn tree_findings(found: Seq<Finding>, node: config::TreeSpec, indent: Seq<char>) -> Seq<
    Finding,
>
    decreases node,
{
    children_findings(node_findings(found, node, indent), node.children, indent + "  "@)
}

/// The findings on the trees of a list.
pub open spec fn children_findings(
    found: Seq<Finding>,
    nodes: Seq<config::TreeSpec>,
    indent: Seq<char>,
) -> Seq<Finding>
    decreases nodes,
{
    if nodes.len() == 0 {
        found
    } else {
        children_findings(tree_findings(found, nodes[0], indent), nodes.drop_first(), indent)
    }
}

/// Adds the findings on a tree.
fn check_tree(diags: &mut Vec<ClusterDiag>, node: &TreeNode, indent: &str)
    ensures
        findings(final(diags)@) == tree_findings(findings(old(diags)@), node@, indent@),
    decreases node,
{
    let mut head = indent.to_owned();
    head.append("node '");
    head.append(node.name.as_str());
    head.append("': ");
    let rf = number(node.replication_factor as u64);
    let shards = number(node.shards.len() as u64);
    proof {
        config::lemma_tree_specs(node.children@);
    }
    if node.shards.len() > 0 && node.replication_factor > node.shards.len() {
        let mut m = head.clone();
        m.append("rf=");
        m.append(rf.as_str());
        m.append(" exceeds shard count (");
        m.append(shards.as_str());
        m.append(") -- will be clamped");
        report(diags, ClusterDiagLevel::Warning, m);
    }
    if node.shards.len() == 0 && node.children.len() == 0 {
        let mut m = head.clone();
        m.append("no shards and no children");
        report(diags, ClusterDiagLevel::Warning, m);
    }
    let mut m = head;
    m.append("rf=");
    m.append(rf.as_str());
    m.append(", ");
    m.append(shards.as_str());
    m.append(" shard(s), ");
    m.append(number(node.children.len() as u64).as_str());
    m.append(" child(ren)");
    report(diags, ClusterDiagLevel::Info, m);
    let mut deeper = indent.to_owned();
    deeper.append("  ");
    let ghost children = node@.children;
    let ghost start = findings(diags@);
    let mut i: usize = 0;
    assert(children.skip(0) =~= children);
    while i < node.children.len()
        invariant
            i <= node.children.len(),
            children.len() == node.children.len(),
            forall|k: int|
                0 <= k < node.children.len() ==> #[trigger] children[k] == config::tree_spec(
                    node.children@[k],
                ),
            deeper@ == indent@ + "  "@,
            children_findings(findings(diags@), children.skip(i as int), deeper@)
                == children_findings(start, children, deeper@),
        decreases node.children.len() - i,
    {
        assert(decreases_to!(node => node.children@));
        assert(decreases_to!(node.children@ => node.children@[i as int]));
        proof {
            assert(children.skip(i as int)[0] == node.children@[i as int]@);
            assert(children.skip(i as int).drop_first() =~= children.skip(i + 1));
        }
        check_tree(diags, &node.children[i], deeper.as_str());
        i = i + 1;
    }
    assert(children.skip(i as int) =~= Seq::<config::TreeSpec>::empty());
}

/// Diagnostics on a tree, node by node, those on a child indented below those on
/// its parent.
pub fn diagnose_tree(root: &TreeNode) -> (diags: Vec<ClusterDiag>)
    ensures
        findings(diags@) == tree_findings(Seq::empty(), root@, Seq::empty()),
{
    let mut diags: Vec<ClusterDiag> = Vec::new();
    assert(findings(diags@) =~= Seq::<Finding>::empty());
    let none = String::new();
    check_tree(&mut diags, root, none.as_str());
    diags
}

/// Whether any diagnostic is an error.
pub fn has_errors(diags: &Vec<ClusterDiag>) -> (r: bool)
    ensures
        r <==> exists|i: int|
            0 <= i < diags.len() && (#[trigger] diags@[i]).level == ClusterDiagLevel::Error,
{
    let mut i: usize = 0;
    while i < diags.len()
        invariant
            i <= diags.len(),
            forall|k: int|
                0 <= k < i ==> (#[trigger] diags@[k]).level != ClusterDiagLevel::Error,
        decreases diags.len() - i,
    {
        if diags[i].level == ClusterDiagLevel::Error {
            return true;
        }
        i = i + 1;
    }
    false
}

// -- Laws -------------------------------------------------------------------

/// Whether there is a finding of a level.
pub open spec fn has_level(found: Seq<Finding>, level: ClusterDiagLevel) -> bool {
    exists|i: int| 0 <= i < found.len() && (#[trigger] found[i]).level == level
}

proof fn lemma_has(found: Seq<Finding>, f: Finding, level: ClusterDiagLevel)
    ensures
        has_level(found.push(f), level) <==> has_level(found, level) || f.level == level,
{
    let all = found.push(f);
    if has_level(found, level) {
        let i = choose|i: int| 0 <= i < found.len() && (#[trigger] found[i]).level == level;
        assert(all[i] == found[i]);
    }
    if has_level(all, level) {
        let i = choose|i: int| 0 <= i < all.len() && (#[trigger] all[i]).level == level;
        if i < found.len() {
            assert(found[i] == all[i]);
        }
    }
    assert(all[found.len() as int] == f);
}

/// Whether a shard cannot be opened: the directory of a raw shard is not there, its
/// compression is not known, or an s3 shard has no endpoint or no bucket.
pub open spec fn is_broken(shard: config::ShardSpec, facts: PathFacts) -> bool {
    match shard {
        config::ShardSpec::Raw { compression, .. } => {
            ||| facts.parent is Some && facts.parent->0@.len() > 0 && !facts.parent_exists
            ||| compression is Some && !facts.compression_known
        },
        config::ShardSpec::S3 { endpoint, bucket, .. } => endpoint.len() == 0 || bucket.len() == 0,
        _ => false,
    }
}

/// Whether a shard is not there, and is not made either.
pub open spec fn is_missing(shard: config::ShardSpec, default_size: bool, facts: PathFacts) -> bool {
    match shard {
        config::ShardSpec::Raw { size_mb, .. } => !facts.exists && size_mb is None && !default_size,
        config::ShardSpec::Fs { .. } => !facts.exists,
        _ => false,
    }
}

proof fn lemma_shard_findings(
    found: Seq<Finding>,
    i: nat,
    shard: config::ShardSpec,
    default_size: bool,
    facts: PathFacts,
)
    ensures
        ({
            let all = shard_findings(found, i, shard, default_size, facts);
            &&& has_level(all, ClusterDiagLevel::Error) <==> has_level(found, ClusterDiagLevel::Error)
                || is_broken(shard, facts)
            &&& has_level(all, ClusterDiagLevel::Warning) <==> has_level(found, ClusterDiagLevel::Warning)
                || is_missing(shard, default_size, facts)
        }),
{
    assert forall|s: Seq<Finding>, f: Finding, level: ClusterDiagLevel| #[trigger]
        has_level(s.push(f), level) <==> has_level(s, level) || f.level == level by {
        lemma_has(s, f, level);
    }
}

proof fn lemma_shards_findings(
    found: Seq<Finding>,
    shards: Seq<config::ShardSpec>,
    default_size: bool,
    facts: Seq<PathFacts>,
    n: nat,
)
    ensures
        ({
            let all = shards_findings(found, shards, default_size, facts, n);
            &&& has_level(all, ClusterDiagLevel::Error) <==> has_level(found, ClusterDiagLevel::Error)
                || exists|i: int| 0 <= i < n && #[trigger] is_broken(shards[i], facts[i])
            &&& has_level(all, ClusterDiagLevel::Warning) <==> has_level(found, ClusterDiagLevel::Warning)
                || exists|i: int|
                0 <= i < n && #[trigger] is_missing(shards[i], default_size, facts[i])
        }),
    decreases n,
{
    if n > 0 {
        let i = (n - 1) as nat;
        lemma_shards_findings(found, shards, default_size, facts, i);
        lemma_shard_findings(
            shards_findings(found, shards, default_size, facts, i),
            i,
            shards[i as int],
            default_size,
            facts[i as int],
        );
        assert(is_broken(shards[i as int], facts[i as int]) ==> exists|j: int|
            0 <= j < n && #[trigger] is_broken(shards[j], facts[j]));
    }
}

/// A configuration has an error exactly if its compression is not known or one of its
/// shards is broken, and a warning exactly if it asks for more copies than there are
/// shards or one of its shards is missing. What is said last is the summary.
pub proof fn a_configuration_has_an_error_iff_something_is_broken(
    conf: config::ClusterSpec,
    compression_known: bool,
    facts: Seq<PathFacts>,
)
    ensures
        ({
            let all = validation(conf, compression_known, facts);
            &&& has_level(all, ClusterDiagLevel::Error) <==> (conf.compression is Some
                && !compression_known) || exists|i: int|
                0 <= i < conf.shards.len() && #[trigger] is_broken(conf.shards[i], facts[i])
            &&& has_level(all, ClusterDiagLevel::Warning) <==> conf.replicas > conf.shards.len()
                || exists|i: int|
                0 <= i < conf.shards.len() && #[trigger] is_missing(
                    conf.shards[i],
                    conf.size_mb is Some,
                    facts[i],
                )
            &&& all.len() > 0 && all.last().level == ClusterDiagLevel::Info
        }),
{
    let none = Seq::<Finding>::empty();
    let first = cluster_findings(conf, compression_known);
    assert forall|s: Seq<Finding>, f: Finding, level: ClusterDiagLevel| #[trigger]
        has_level(s.push(f), level) <==> has_level(s, level) || f.level == level by {
        lemma_has(s, f, level);
    }
    if conf.replicas > conf.shards.len() {
        let f = Finding {
            level: ClusterDiagLevel::Warning,
            message: "replicas ("@ + text::decimal(conf.replicas as nat) + ") exceeds shard count ("@
                + text::decimal(conf.shards.len()) + ") -- will be clamped"@,
        };
        assert(seq![f] =~= none.push(f));
    }
    assert(!has_level(none, ClusterDiagLevel::Error) && !has_level(none, ClusterDiagLevel::Warning));
    lemma_shards_findings(first, conf.shards, conf.size_mb is Some, facts, conf.shards.len());
}

/// Whether there is a node in a tree that asks for more copies than it has shards, or that
/// has neither shards nor children.
pub open spec fn has_odd_node(node: config::TreeSpec) -> bool
    decreases node,
{
    ||| node.shards.len() > 0 && node.replication_factor > node.shards.len()
    ||| node.shards.len() == 0 && node.children.len() == 0
    ||| exists|i: int| 0 <= i < node.children.len() && has_odd_node(#[trigger] node.children[i])
}

/// A tree has a warning exactly if one of its nodes asks for more copies than it has
/// shards, or has neither shards nor children.
pub proof fn a_tree_has_a_warning_iff_a_node_is_odd(
    found: Seq<Finding>,
    node: config::TreeSpec,
    indent: Seq<char>,
)
    ensures
        has_level(tree_findings(found, node, indent), ClusterDiagLevel::Warning) <==> has_level(
            found,
            ClusterDiagLevel::Warning,
        ) || has_odd_node(node),
        has_level(tree_findings(found, node, indent), ClusterDiagLevel::Error) <==> has_level(
            found,
            ClusterDiagLevel::Error,
        ),
        tree_findings(found, node, indent).len() > found.len(),
    decreases node,
{
    assert forall|s: Seq<Finding>, f: Finding, level: ClusterDiagLevel| #[trigger]
        has_level(s.push(f), level) <==> has_level(s, level) || f.level == level by {
        lemma_has(s, f, level);
    }
    lemma_children_findings(node_findings(found, node, indent), node.children, indent + "  "@);
}

proof fn lemma_children_findings(
    found: Seq<Finding>,
    nodes: Seq<config::TreeSpec>,
    indent: Seq<char>,
)
    ensures
        has_level(children_findings(found, nodes, indent), ClusterDiagLevel::Warning) <==> has_level(
            found,
            ClusterDiagLevel::Warning,
        ) || exists|i: int| 0 <= i < nodes.len() && has_odd_node(#[trigger] nodes[i]),
        has_level(children_findings(found, nodes, indent), ClusterDiagLevel::Error) <==> has_level(
            found,
            ClusterDiagLevel::Error,
        ),
        children_findings(found, nodes, indent).len() >= found.len(),
    decreases nodes,
{
    if nodes.len() > 0 {
        let rest = nodes.drop_first();
        a_tree_has_a_warning_iff_a_node_is_odd(found, nodes[0], indent);
        lemma_children_findings(tree_findings(found, nodes[0], indent), rest, indent);
        if exists|i: int| 0 <= i < nodes.len() && has_odd_node(#[trigger] nodes[i]) {
            let i = choose|i: int| 0 <= i < nodes.len() && has_odd_node(#[trigger] nodes[i]);
            if i > 0 {
                assert(rest[i - 1] == nodes[i]);
            }
        }
        if exists|i: int| 0 <= i < rest.len() && has_odd_node(#[trigger] rest[i]) {
            let i = choose|i: int| 0 <= i < rest.len() && has_odd_node(#[trigger] rest[i]);
            assert(nodes[i + 1] == rest[i]);
        }
    }
}

} // verus!
