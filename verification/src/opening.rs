//! Opening a cluster for a client: its settings, the shards that a configuration names,
//! and the names by which a client speaks of preferences, reasons and formats.

use vstd::prelude::*;
use vstd::string::*;
use crate::config;
use crate::config::{ClusterConf, ShardConf};
use crate::persistence;
use crate::persistence::CatalogPersistence;
use crate::replication;
use crate::store;
use crate::store::{DetachReason, ReadPreference, ShardedObjectStore};
use crate::text;
use crate::text::{str_eq, strip_prefix};
use crate::time::Timestamp;

verus! {

// -- Settings ---------------------------------------------------------------

/// How a client wants a cluster to work.
#[derive(Debug, Clone, Copy, PartialEq, Eq, Structural)]
pub struct Settings {
    /// The copies that are kept of each object.
    pub replication_factor: usize,
    /// The writes that a put needs, if not the default.
    pub min_writes: Option<usize>,
    /// Whether deletes need as many successes.
    pub delete_requires_min_writes: bool,
    /// Whether writes are refused.
    pub read_only: bool,
}

/// A cluster with some settings.
pub open spec fn configured(c: store::ClusterState, s: Settings) -> store::ClusterState {
    store::ClusterState {
        read_only: s.read_only,
        min_writes: match s.min_writes {
            Some(n) => replication::clamp_factor(n as nat, c.rf),
            None => c.min_writes,
        },
        delete_requires_min_writes: c.delete_requires_min_writes || s.delete_requires_min_writes,
        ..c
    }
}

fn configure(store: ShardedObjectStore, s: &Settings) -> (r: ShardedObjectStore)
    ensures
        r@ == configured(store@, *s),
        store::valid(store@) ==> store::valid(r@),
{
    let mut r = store.with_read_only(s.read_only);
    if let Some(n) = s.min_writes {
        r = r.with_min_writes(n);
    }
    if s.delete_requires_min_writes {
        r = r.with_delete_requires_min_writes(true);
    }
    r
}

/// Opens a cluster of shards that are all there; none without shards.
pub fn open_cluster(shard_count: usize, settings: &Settings) -> (r: Option<ShardedObjectStore>)
    ensures
        (match r {
            Some(s) => shard_count > 0 && store::valid(s@) && s@ == configured(
                store::fresh_cluster(
                    Seq::new(shard_count as nat, |i: int| store::fresh_shard(i as usize)),
                    settings.replication_factor as nat,
                ),
                *settings,
            ),
            None => shard_count == 0,
        }),
{
    if shard_count == 0 {
        None
    } else {
        Some(
            configure(ShardedObjectStore::new(shard_count, settings.replication_factor), settings),
        )
    }
}

/// Opens a cluster some of whose shards may be missing; none without shards.
pub fn open_cluster_degraded(present: &[bool], settings: &Settings, now: Timestamp) -> (r: Option<
    ShardedObjectStore,
>)
    ensures
        (match r {
            Some(s) => present@.len() > 0 && store::valid(s@) && s@ == configured(
                store::fresh_cluster(
                    Seq::new(
                        present@.len(),
                        |i: int|
                            if present@[i] {
                                store::fresh_shard(i as usize)
                            } else {
                                store::missing_shard(i as usize, now)
                            },
                    ),
                    settings.replication_factor as nat,
                ),
                *settings,
            ),
            None => present@.len() == 0,
        }),
{
    if present.len() == 0 {
        None
    } else {
        Some(
            configure(
                ShardedObjectStore::new_with_offline(present, settings.replication_factor, now),
                settings,
            ),
        )
    }
}

// -- Configurations ---------------------------------------------------------

/// How to open a shard that a configuration names.
#[derive(Debug)]
pub enum ShardOpening {
    /// As a raw device or image.
    Raw { path: String, direct_io: bool, read_only: bool },
    /// Not at all: only raw shards can be opened in this way.
    Unsupported(&'static str),
}

/// How to open a shard that a configuration names.
pub enum OpeningSpec {
    Raw { path: Seq<char>, direct_io: bool, read_only: bool },
    Unsupported(Seq<char>),
}

impl View for ShardOpening {
    type V = OpeningSpec;

    open spec fn view(&self) -> OpeningSpec {
        match *self {
            ShardOpening::Raw { path, direct_io, read_only } => OpeningSpec::Raw {
                path: path@,
                direct_io,
                read_only,
            },
            ShardOpening::Unsupported(kind) => OpeningSpec::Unsupported(kind@),
        }
    }
}

/// What the openings of a list say.
pub open spec fn opening_specs(v: Seq<ShardOpening>) -> Seq<OpeningSpec> {
    Seq::new(v.len(), |i: int| v[i]@)
}

/// How to open a shard, given the defaults.
pub open spec fn opening_of(shard: config::ShardSpec, direct_io: bool, read_only: bool) -> OpeningSpec {
    match shard {
        config::ShardSpec::Raw { path, read_only: own, direct_io: preferred, .. } => OpeningSpec::Raw {
            path,
            direct_io: match preferred {
                Some(d) => d,
                None => direct_io,
            },
            read_only: own || read_only,
        },
        config::ShardSpec::Fs { .. } => OpeningSpec::Unsupported("fs"@),
        config::ShardSpec::S3 { .. } => OpeningSpec::Unsupported("s3"@),
        config::ShardSpec::Mem => OpeningSpec::Unsupported("mem"@),
        config::ShardSpec::Node(_) => OpeningSpec::Unsupported("node"@),
    }
}

/// How to open all shards of a configuration, given the defaults.
pub open spec fn openings_of(
    shards: Seq<config::ShardSpec>,
    direct_io: bool,
    read_only: bool,
) -> Seq<OpeningSpec> {
    Seq::new(shards.len(), |i: int| opening_of(shards[i], direct_io, read_only))
}

/// How a catalog is kept, as a configuration says it: `none`, `json:` or `bincode:` and
/// a path, or a path alone, which means JSON.
pub open spec fn configured_catalog(s: Seq<char>) -> Option<persistence::Persistence> {
    if s == "none"@ {
        None
    } else {
        match text::after_prefix(s, "json:"@) {
            Some(path) => Some(persistence::Persistence::Json(path)),
            None => match text::after_prefix(s, "bincode:"@) {
                Some(path) => Some(persistence::Persistence::Bincode(path)),
                None => Some(persistence::Persistence::Json(s)),
            },
        }
    }
}

/// How to open the cluster that a configuration describes.
#[derive(Debug)]
pub struct OpenPlan {
    /// The shards, in order.
    pub shards: Vec<ShardOpening>,
    pub settings: Settings,
    /// How the catalog is kept, if it is.
    pub catalog: Option<CatalogPersistence>,
}

/// How to open the cluster that a configuration describes.
pub struct PlanSpec {
    pub shards: Seq<OpeningSpec>,
    pub settings: Settings,
    pub catalog: Option<persistence::Persistence>,
}

impl View for OpenPlan {
    type V = PlanSpec;

    open spec fn view(&self) -> PlanSpec {
        PlanSpec {
            shards: opening_specs(self.shards@),
            settings: self.settings,
            catalog: match self.catalog {
                Some(p) => Some(p@),
                None => None,
            },
        }
    }
}

/// What a client says about a cluster that a configuration describes.
#[derive(Debug, Clone, Copy, PartialEq, Eq, Structural)]
pub struct Overrides {
    pub min_writes: Option<usize>,
    pub direct_io: Option<bool>,
    pub read_only: Option<bool>,
}

/// What is said, or else what is the default.
pub open spec fn or_else<T>(said: Option<T>, otherwise: T) -> T {
    match said {
        Some(x) => x,
        None => otherwise,
    }
}

/// How to open the cluster that a configuration describes, with what the client says;
/// none without shards.
pub open spec fn plan_of(conf: config::ClusterSpec, said: Overrides) -> Option<PlanSpec> {
    let read_only = or_else(said.read_only, conf.read_only);
    if conf.shards.len() == 0 {
        None
    } else {
        Some(
            PlanSpec {
                shards: openings_of(conf.shards, or_else(said.direct_io, conf.direct_io), read_only),
                settings: Settings {
                    replication_factor: conf.replicas,
                    min_writes: match said.min_writes {
                        Some(n) => Some(n),
                        None => conf.min_writes,
                    },
                    delete_requires_min_writes: conf.delete_requires_min_writes,
                    read_only,
                },
                catalog: match conf.catalog {
                    Some(s) => configured_catalog(s),
                    None => None,
                },
            },
        )
    }
}

fn keep_catalog(s: &str) -> (r: Option<CatalogPersistence>)
    ensures
        (match r {
            Some(p) => Some(p@),
            None => None,
        }) == configured_catalog(s@),
{
    if str_eq(s, "none") {
        return None;
    }
    if let Some(path) = strip_prefix(s, "json:") {
        return Some(CatalogPersistence::json(path));
    }
    if let Some(path) = strip_prefix(s, "bincode:") {
        return Some(CatalogPersistence::bincode(path));
    }
    Some(CatalogPersistence::json(s))
}

fn open_shard(shard: &ShardConf, direct_io: bool, read_only: bool) -> (r: ShardOpening)
    ensures
        r@ == opening_of(shard@, direct_io, read_only),
{
    match shard {
        ShardConf::Raw { path, read_only: own, direct_io: preferred, .. } => ShardOpening::Raw {
            path: path.clone(),
            direct_io: match preferred {
                Some(d) => *d,
                None => direct_io,
            },
            read_only: *own || read_only,
        },
        _ => ShardOpening::Unsupported(shard.kind_name()),
    }
}

/// How to open the cluster that a configuration describes, with what the client says;
/// none without shards.
pub fn plan_open(conf: &ClusterConf, said: &Overrides) -> (r: Option<OpenPlan>)
    ensures
        (match r {
            Some(p) => Some(p@),
            None => None,
        }) == plan_of(conf@, *said),
{
    if conf.shards.len() == 0 {
        return None;
    }
    let direct_io = match said.direct_io {
        Some(d) => d,
        None => conf.direct_io,
    };
    let read_only = match said.read_only {
        Some(d) => d,
        None => conf.read_only,
    };
    let mut shards: Vec<ShardOpening> = Vec::new();
    let mut i: usize = 0;
    while i < conf.shards.len()
        invariant
            i <= conf.shards.len(),
            opening_specs(shards@) == openings_of(conf@.shards, direct_io, read_only).take(i as int),
        decreases conf.shards.len() - i,
    {
        let ghost before = shards@;
        let shard = open_shard(&conf.shards[i], direct_io, read_only);
        shards.push(shard);
        assert(opening_specs(shards@) =~= opening_specs(before).push(shard@));
        assert(opening_specs(shards@) =~= openings_of(conf@.shards, direct_io, read_only).take(
            i + 1,
        ));
        i = i + 1;
    }
    assert(openings_of(conf@.shards, direct_io, read_only).take(i as int) =~= openings_of(
        conf@.shards,
        direct_io,
        read_only,
    ));
    Some(
        OpenPlan {
            shards,
            settings: Settings {
                replication_factor: conf.replicas,
                min_writes: match said.min_writes {
                    Some(n) => Some(n),
                    None => conf.min_writes,
                },
                delete_requires_min_writes: conf.delete_requires_min_writes,
                read_only,
            },
            catalog: match &conf.catalog {
                Some(s) => keep_catalog(s.as_str()),
                None => None,
            },
        },
    )
}

// -- Names ------------------------------------------------------------------

/// The name of a read preference.
pub open spec fn preference_name(p: ReadPreference) -> Seq<char> {
    match p {
        ReadPreference::RoundRobin => "round-robin"@,
        ReadPreference::Ordered => "ordered"@,
    }
}

/// The read preference of a name.
pub open spec fn preference_of(name: Seq<char>) -> Option<ReadPreference> {
    if name == "ordered"@ {
        Some(ReadPreference::Ordered)
    } else if name == "round-robin"@ || name == "round_robin"@ {
        Some(ReadPreference::RoundRobin)
    } else {
        None
    }
}

impl ReadPreference {
    /// The name of the preference.
    pub fn name(&self) -> (r: &'static str)
        ensures
            r@ == preference_name(*self),
    {
        match self {
            ReadPreference::RoundRobin => "round-robin",
            ReadPreference::Ordered => "ordered",
        }
    }

    /// The preference of a name, if it is one.
    pub fn parse(name: &str) -> (r: Option<Self>)
        ensures
            r == preference_of(name@),
    {
        if str_eq(name, "ordered") {
            Some(ReadPreference::Ordered)
        } else if str_eq(name, "round-robin") || str_eq(name, "round_robin") {
            Some(ReadPreference::RoundRobin)
        } else {
            None
        }
    }
}

/// The name of a reason.
pub open spec fn reason_name(r: DetachReason) -> Seq<char> {
    match r {
        DetachReason::Manual => "Manual"@,
        DetachReason::ProbeFailure => "ProbeFailure"@,
        DetachReason::DeviceMissing => "DeviceMissing"@,
        DetachReason::Drain => "Drain"@,
    }
}

/// The reason of a name.
pub open spec fn reason_of(name: Seq<char>) -> Option<DetachReason> {
    if name == "Manual"@ {
        Some(DetachReason::Manual)
    } else if name == "ProbeFailure"@ {
        Some(DetachReason::ProbeFailure)
    } else if name == "DeviceMissing"@ {
        Some(DetachReason::DeviceMissing)
    } else if name == "Drain"@ {
        Some(DetachReason::Drain)
    } else {
        None
    }
}

impl DetachReason {
    /// The name of the reason.
    pub fn name(&self) -> (r: &'static str)
        ensures
            r@ == reason_name(*self),
    {
        match self {
            DetachReason::Manual => "Manual",
            DetachReason::ProbeFailure => "ProbeFailure",
            DetachReason::DeviceMissing => "DeviceMissing",
            DetachReason::Drain => "Drain",
        }
    }

    /// The reason of a name, if it is one.
    pub fn parse(name: &str) -> (r: Option<Self>)
        ensures
            r == reason_of(name@),
    {
        if str_eq(name, "Manual") {
            Some(DetachReason::Manual)
        } else if str_eq(name, "ProbeFailure") {
            Some(DetachReason::ProbeFailure)
        } else if str_eq(name, "DeviceMissing") {
            Some(DetachReason::DeviceMissing)
        } else if str_eq(name, "Drain") {
            Some(DetachReason::Drain)
        } else {
            None
        }
    }
}

/// How a catalog is kept in a file, in the format of a name.
pub open spec fn format_of(format: Seq<char>, path: Seq<char>) -> Option<persistence::Persistence> {
    if format == "json"@ {
        Some(persistence::Persistence::Json(path))
    } else if format == "bincode"@ {
        Some(persistence::Persistence::Bincode(path))
    } else {
        None
    }
}

impl CatalogPersistence {
    /// Persistence in a file, in the format of a name, if it is one.
    pub fn in_format(format: &str, path: &str) -> (r: Option<Self>)
        ensures
            (match r {
                Some(p) => Some(p@),
                None => None,
            }) == format_of(format@, path@),
    {
        if str_eq(format, "json") {
            Some(CatalogPersistence::json(path))
        } else if str_eq(format, "bincode") {
            Some(CatalogPersistence::bincode(path))
        } else {
            None
        }
    }
}

// -- Laws -------------------------------------------------------------------

/// The name of a read preference is read as the preference, and that of a reason as the
/// reason.
pub proof fn names_are_read_as_what_they_name(p: ReadPreference, r: DetachReason)
    ensures
        preference_of(preference_name(p)) == Some(p),
        reason_of(reason_name(r)) == Some(r),
{
    reveal_strlit("ordered");
    reveal_strlit("round-robin");
    reveal_strlit("Manual");
    reveal_strlit("ProbeFailure");
    reveal_strlit("DeviceMissing");
    reveal_strlit("Drain");
    assert("ordered"@.len() != "round-robin"@.len());
    assert("Manual"@[0] == 'M');
    assert("ProbeFailure"@[0] == 'P');
    assert("DeviceMissing"@.len() != "Drain"@.len());
    assert("DeviceMissing"@[0] == 'D');
    assert("Drain"@[0] == 'D');
}

/// What a client says wins over the configuration, except that a shard that the
/// configuration opens read-only stays read-only, and one for which it says whether to
/// use direct I/O keeps that.
pub proof fn what_a_client_says_wins(conf: config::ClusterSpec, said: Overrides, i: int)
    requires
        0 <= i < conf.shards.len(),
    ensures
        ({
            let plan = plan_of(conf, said)->0;
            &&& said.min_writes matches Some(n) ==> plan.settings.min_writes == Some(n)
            &&& said.read_only matches Some(r) ==> plan.settings.read_only == r
            &&& conf.shards[i] matches config::ShardSpec::Raw {
                path,
                read_only,
                direct_io,
                ..
            } ==> plan.shards[i] == (OpeningSpec::Raw {
                path,
                direct_io: match direct_io {
                    Some(d) => d,
                    None => or_else(said.direct_io, conf.direct_io),
                },
                read_only: read_only || plan.settings.read_only,
            })
        }),
{
}

/// What a configuration says holds of a cluster that is opened as it describes: deletes
/// need as many successes as puts exactly if it says so, and where the client says
/// nothing, so do the writes that a put needs and whether writes are refused.
pub proof fn what_a_configuration_says_holds(
    conf: config::ClusterSpec,
    said: Overrides,
    shards: Seq<store::ShardInfo>,
)
    requires
        conf.shards.len() > 0,
    ensures
        plan_of(conf, said) is Some,
        ({
            let settings = plan_of(conf, said)->0.settings;
            let fresh = store::fresh_cluster(shards, settings.replication_factor as nat);
            let c = configured(fresh, settings);
            &&& settings.replication_factor == conf.replicas
            &&& c.delete_requires_min_writes == conf.delete_requires_min_writes
            &&& said.min_writes is None ==> (conf.min_writes matches Some(n) ==> c.min_writes
                == replication::clamp_factor(n as nat, c.rf))
            &&& said.read_only is None ==> c.read_only == conf.read_only
        }),
{
}

/// A cluster needs as many writes as its settings ask for, but at least one and no more
/// than it keeps copies; where they say nothing, as many as before. It refuses writes
/// exactly if they say so. Nothing else changes.
pub proof fn settings_hold_as_far_as_they_make_sense(c: store::ClusterState, s: Settings)
    requires
        store::valid(c),
    ensures
        ({
            let after = configured(c, s);
            &&& s.min_writes is None ==> after.min_writes == c.min_writes
            &&& s.min_writes matches Some(n) ==> {
                &&& 1 <= n <= c.rf ==> after.min_writes == n
                &&& n == 0 ==> after.min_writes == 1
                &&& n > c.rf ==> after.min_writes == c.rf
            }
            &&& after.read_only == s.read_only
            &&& s.delete_requires_min_writes ==> after.delete_requires_min_writes
            &&& !s.delete_requires_min_writes ==> after.delete_requires_min_writes
                == c.delete_requires_min_writes
            &&& after.shards == c.shards && after.rf == c.rf && after.entries == c.entries
            &&& store::valid(after)
        }),
{
}

/// A configuration with shards is opened with all of them, in order, and one without is
/// not. Only raw shards can be opened. What is said of direct I/O holds for a shard: by
/// the shard itself, or else by the client, or else by the configuration.
pub proof fn a_configuration_is_opened_with_all_its_shards(
    conf: config::ClusterSpec,
    said: Overrides,
    i: int,
)
    requires
        0 <= i < conf.shards.len(),
    ensures
        ({
            let plan = plan_of(conf, said)->0;
            &&& plan_of(conf, said) is Some
            &&& plan.shards.len() == conf.shards.len()
            &&& plan.shards[i] is Raw <==> conf.shards[i] is Raw
            &&& conf.shards[i] matches config::ShardSpec::Raw { direct_io: own, read_only, .. }
                ==> plan.shards[i] matches OpeningSpec::Raw { direct_io, read_only: only, .. } && (
            own is Some ==> direct_io == own->0) && (own is None && said.direct_io is Some
                ==> direct_io == said.direct_io->0) && (own is None && said.direct_io is None
                ==> direct_io == conf.direct_io) && (read_only ==> only) && (said.read_only == Some(
                true,
            ) ==> only) && (!read_only && said.read_only == Some(false) ==> !only) && (!read_only
                && said.read_only is None ==> only == conf.read_only)
            &&& conf.catalog is None ==> plan.catalog is None
            &&& conf.catalog matches Some(s) ==> plan.catalog == configured_catalog(s)
        }),
        plan_of(config::ClusterSpec { shards: Seq::empty(), ..conf }, said) is None,
{
}

/// The catalog is kept where the configuration says and in the format that it names; a
/// path alone means JSON, and `none` that it is not kept.
pub proof fn a_catalog_is_kept_as_it_is_said(path: Seq<char>)
    ensures
        configured_catalog("none"@) is None,
        configured_catalog("json:"@ + path) == Some(persistence::Persistence::Json(path)),
        configured_catalog("bincode:"@ + path) == Some(persistence::Persistence::Bincode(path)),
        path != "none"@ && !"json:"@.is_prefix_of(path) && !"bincode:"@.is_prefix_of(path)
            ==> configured_catalog(path) == Some(persistence::Persistence::Json(path)),
        format_of("json"@, path) == Some(persistence::Persistence::Json(path)),
        format_of("bincode"@, path) == Some(persistence::Persistence::Bincode(path)),
        forall|format: Seq<char>|
            format != "json"@ && format != "bincode"@ ==> #[trigger] format_of(format, path) is None,
{
    reveal_strlit("none");
    reveal_strlit("json:");
    reveal_strlit("bincode:");
    reveal_strlit("json");
    reveal_strlit("bincode");
    let a = "json:"@ + path;
    let b = "bincode:"@ + path;
    assert(a[0] == 'j' && "none"@[0] == 'n' && b[0] == 'b');
    assert("json:"@.is_prefix_of(a)) by {
        assert(a.subrange(0, "json:"@.len() as int) =~= "json:"@);
    }
    assert(a.skip("json:"@.len() as int) =~= path);
    assert("bincode:"@.is_prefix_of(b)) by {
        assert(b.subrange(0, "bincode:"@.len() as int) =~= "bincode:"@);
    }
    assert(b.skip("bincode:"@.len() as int) =~= path);
    assert(!"json:"@.is_prefix_of(b)) by {
        if "json:"@.is_prefix_of(b) {
            assert(b.subrange(0, "json:"@.len() as int)[0] == "json:"@[0]);
        }
    }
    assert("json"@[0] != "bincode"@[0]);
}

/// Only the names of read preferences and reasons are read, one of them in two ways.
pub proof fn nothing_else_is_a_name(name: Seq<char>)
    ensures
        preference_of(name) matches Some(p) ==> name == preference_name(p) || (p
            == ReadPreference::RoundRobin && name == "round_robin"@),
        preference_of("round_robin"@) == Some(ReadPreference::RoundRobin),
        reason_of(name) matches Some(r) ==> name == reason_name(r),
{
    reveal_strlit("ordered");
    reveal_strlit("round_robin");
    assert("ordered"@.len() != "round_robin"@.len());
}

} // verus!
