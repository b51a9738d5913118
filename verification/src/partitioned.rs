//! Bringing a shard up to date where each shard holds a part of the objects.
//!
//! First the objects that have too few copies are copied to the shard. Then the delete
//! markers are replayed on it, what is out of date is replaced or removed, and markers
//! that are no longer needed are removed. The caller carries out each step and reports
//! the outcome.

use vstd::prelude::*;
use vstd::string::*;
use crate::balance;
use crate::catalog;
use crate::ids::ShardId;
use crate::markers;
use crate::metadata;
use crate::metadata::{is_sidecar, meta_sidecar_path};
use crate::path;
use crate::path::path_from;
use crate::repair;
use crate::scan;
use crate::scan::Scanned;
use crate::store;
use crate::store::{ShardHealth, ShardedObjectStore};
use crate::string_map;
use crate::tally;
use crate::tally::count_up;
use crate::text;
use crate::text::{str_eq, strip_prefix};
use crate::time::Timestamp;

verus! {

/// Where a sync is.
#[derive(Debug, Clone, Copy, PartialEq, Eq, Structural)]
pub enum Phase {
    /// Objects with too few copies are copied.
    Copying,
    /// The delete markers of the cluster are to be listed.
    AwaitingMarkers,
    /// Objects that were deleted are removed.
    Replaying,
    /// The objects on the shard are to be listed.
    AwaitingListing,
    /// Objects that are out of date are replaced or removed.
    Refreshing,
    /// Delete markers that are no longer needed are removed.
    Cleaning,
    Ended,
}

/// What is known of the delete marker that is being looked at.
#[derive(Debug, Clone, Copy, PartialEq, Eq, Structural)]
pub enum Stage {
    /// Nothing yet.
    Unread,
    /// Its time.
    Read(Timestamp),
    /// Its time, and that the cluster still has it.
    Confirmed(Timestamp),
}

/// A sync in progress.
pub struct SyncState {
    pub target: usize,
    pub phase: Phase,
    /// The objects that are still to be copied.
    pub keys: Seq<Seq<char>>,
    /// The delete markers that are still to be replayed.
    pub markers: Seq<(Seq<char>, Timestamp)>,
    /// What the shard lists.
    pub listing: Seq<scan::ScanSpec>,
    /// What is still to be looked at of it.
    pub todo: Seq<scan::ScanSpec>,
    pub stage: Stage,
    /// What has to be deleted from the shard before anything else.
    pub delete: Option<Seq<char>>,
    pub replicated: usize,
}

/// A sync when it begins.
pub open spec fn sync_begun(c: store::ClusterState, target: usize) -> SyncState {
    SyncState {
        target,
        phase: Phase::Copying,
        keys: balance::under_replicated(c),
        markers: Seq::empty(),
        listing: Seq::empty(),
        todo: Seq::empty(),
        stage: Stage::Unread,
        delete: None,
        replicated: 0,
    }
}

/// The shard to copy an object from: the first healthy one that holds it, other than
/// the one to bring up to date.
pub open spec fn source_of(c: store::ClusterState, key: Seq<char>, target: usize) -> Option<usize> {
    if c.entries.contains_key(key) {
        repair::healthy_source(c.shards, c.entries[key].shards, Some(target))
    } else {
        None
    }
}

/// What is done about an object on the shard.
pub enum Refresh {
    Keep,
    Remove,
    Replace(usize),
}

/// Whether a file is the sidecar of an object that the catalog has with metadata.
pub open spec fn holds_metadata(c: store::ClusterState, location: Seq<char>) -> bool {
    exists|k: Seq<char>| #[trigger]
        c.entries.contains_key(k) && c.entries[k].meta_len > 0 && metadata::sidecar_of(k)
            == location
}

/// What is done about an object on the shard: it is removed if the catalog does not
/// have it, and replaced, or removed if it cannot be, if the catalog has a newer one.
/// The metadata of an object stays beside it.
pub open spec fn refresh(c: store::ClusterState, target: usize, o: scan::ScanSpec) -> Refresh {
    if markers::is_marker(o.location) {
        Refresh::Keep
    } else if !c.entries.contains_key(o.location) {
        if holds_metadata(c, o.location) {
            Refresh::Keep
        } else {
            Refresh::Remove
        }
    } else if c.entries[o.location].updated.later_than(o.last_modified) {
        match source_of(c, o.location, target) {
            Some(source) => Refresh::Replace(source),
            None => Refresh::Remove,
        }
    } else {
        Refresh::Keep
    }
}

/// What comes next in a sync.
pub enum StepSpec {
    Copy { key: Seq<char>, source: usize },
    ListMarkers,
    Head(Seq<char>),
    ListTarget,
    Replace { location: Seq<char>, source: usize },
    ReadMarker(Seq<char>),
    AskMarker(Seq<char>),
    AskLive(Seq<char>),
    Delete(Seq<char>),
    Done,
}

/// What comes next in a sync.
#[derive(Debug)]
pub enum SyncStep {
    /// Copy the object from a shard to the one to bring up to date.
    Copy { key: String, source: ShardId },
    /// List the delete markers of the cluster.
    ListMarkers,
    /// Find out when an object on the shard was last modified.
    Head(String),
    /// List the objects on the shard.
    ListTarget,
    /// Replace the object on the shard by that on another.
    Replace { location: String, source: ShardId },
    /// Read the time of a delete marker on the shard.
    ReadMarker(String),
    /// Find out whether the cluster has a delete marker of an object.
    AskMarker(String),
    /// Find out when an object of the cluster was last modified.
    AskLive(String),
    /// Delete an object from the shard.
    Delete(String),
    /// There is nothing left to do.
    Done,
}

impl View for SyncStep {
    type V = StepSpec;

    open spec fn view(&self) -> StepSpec {
        match *self {
            SyncStep::Copy { key, source } => StepSpec::Copy { key: key@, source },
            SyncStep::ListMarkers => StepSpec::ListMarkers,
            SyncStep::Head(k) => StepSpec::Head(k@),
            SyncStep::ListTarget => StepSpec::ListTarget,
            SyncStep::Replace { location, source } => StepSpec::Replace {
                location: location@,
                source,
            },
            SyncStep::ReadMarker(k) => StepSpec::ReadMarker(k@),
            SyncStep::AskMarker(k) => StepSpec::AskMarker(k@),
            SyncStep::AskLive(k) => StepSpec::AskLive(k@),
            SyncStep::Delete(k) => StepSpec::Delete(k@),
            SyncStep::Done => StepSpec::Done,
        }
    }
}

/// The outcome of a step.
#[derive(Debug)]
pub enum SyncOutcome {
    Succeeded,
    Failed,
    /// The object could not be opened on the shard to copy it from.
    SourceFailed,
    /// The delete markers of the cluster, each with the object that it is of.
    Markers(Vec<(String, Timestamp)>),
    /// The objects on the shard.
    Listing(Vec<Scanned>),
    /// A time, if there is one.
    Time(Option<Timestamp>),
    /// Whether there is one.
    Present(bool),
}

/// The outcome of a step.
pub enum OutcomeSpec {
    Succeeded,
    Failed,
    SourceFailed,
    Markers(Seq<(Seq<char>, Timestamp)>),
    Listing(Seq<scan::ScanSpec>),
    Time(Option<Timestamp>),
    Present(bool),
}

impl View for SyncOutcome {
    type V = OutcomeSpec;

    open spec fn view(&self) -> OutcomeSpec {
        match *self {
            SyncOutcome::Succeeded => OutcomeSpec::Succeeded,
            SyncOutcome::Failed => OutcomeSpec::Failed,
            SyncOutcome::SourceFailed => OutcomeSpec::SourceFailed,
            SyncOutcome::Markers(v) => OutcomeSpec::Markers(markers::marker_views(v@)),
            SyncOutcome::Listing(v) => OutcomeSpec::Listing(scan::scan_views(v@)),
            SyncOutcome::Time(t) => OutcomeSpec::Time(t),
            SyncOutcome::Present(b) => OutcomeSpec::Present(b),
        }
    }
}

/// How far a phase is from the end.
pub open spec fn rank(phase: Phase) -> nat {
    match phase {
        Phase::Copying => 6,
        Phase::AwaitingMarkers => 5,
        Phase::Replaying => 4,
        Phase::AwaitingListing => 3,
        Phase::Refreshing => 2,
        Phase::Cleaning => 1,
        Phase::Ended => 0,
    }
}

/// The object that a delete marker is of.
pub open spec fn marked_key(location: Seq<char>) -> Seq<char> {
    location.skip(markers::marker_prefix().len() as int)
}

/// The sync when the next step is due, and the step.
pub open spec fn sync_next(c: store::ClusterState, s: SyncState) -> (SyncState, StepSpec)
    decreases rank(s.phase), s.keys.len() + s.todo.len(),
{
    if let Some(location) = s.delete {
        (s, StepSpec::Delete(location))
    } else {
        match s.phase {
            Phase::Copying => if s.keys.len() == 0 {
                sync_next(c, SyncState { phase: Phase::AwaitingMarkers, ..s })
            } else {
                match source_of(c, s.keys[0], s.target) {
                    Some(source) => (s, StepSpec::Copy { key: s.keys[0], source }),
                    None => sync_next(c, SyncState { keys: s.keys.drop_first(), ..s }),
                }
            },
            Phase::AwaitingMarkers => (s, StepSpec::ListMarkers),
            Phase::Replaying => if s.markers.len() == 0 {
                sync_next(c, SyncState { phase: Phase::AwaitingListing, ..s })
            } else {
                (s, StepSpec::Head(path::normalized(s.markers[0].0)))
            },
            Phase::AwaitingListing => (s, StepSpec::ListTarget),
            Phase::Refreshing => if s.todo.len() == 0 {
                sync_next(c, SyncState { phase: Phase::Cleaning, todo: s.listing, ..s })
            } else {
                let rest = SyncState { todo: s.todo.drop_first(), ..s };
                match refresh(c, s.target, s.todo[0]) {
                    Refresh::Keep => sync_next(c, rest),
                    Refresh::Remove => (
                        SyncState { delete: Some(s.todo[0].location), ..rest },
                        StepSpec::Delete(s.todo[0].location),
                    ),
                    Refresh::Replace(source) => (
                        s,
                        StepSpec::Replace { location: s.todo[0].location, source },
                    ),
                }
            },
            Phase::Cleaning => if s.todo.len() == 0 {
                (SyncState { phase: Phase::Ended, ..s }, StepSpec::Done)
            } else if !markers::is_marker(s.todo[0].location) {
                sync_next(c, SyncState { todo: s.todo.drop_first(), ..s })
            } else {
                (
                    s,
                    match s.stage {
                        Stage::Unread => StepSpec::ReadMarker(s.todo[0].location),
                        Stage::Read(_) => StepSpec::AskMarker(marked_key(s.todo[0].location)),
                        Stage::Confirmed(_) => StepSpec::AskLive(marked_key(s.todo[0].location)),
                    },
                )
            },
            Phase::Ended => (s, StepSpec::Done),
        }
    }
}

/// The sync after a step was carried out.
pub open spec fn sync_reported(s: SyncState, outcome: OutcomeSpec) -> SyncState {
    if s.delete is Some {
        SyncState { delete: None, ..s }
    } else {
        match s.phase {
            Phase::Copying => if s.keys.len() == 0 {
                s
            } else {
                SyncState {
                    keys: s.keys.drop_first(),
                    replicated: if outcome is Succeeded {
                        tally::up(s.replicated)
                    } else {
                        s.replicated
                    },
                    ..s
                }
            },
            Phase::AwaitingMarkers => SyncState {
                phase: Phase::Replaying,
                markers: match outcome {
                    OutcomeSpec::Markers(m) => m,
                    _ => Seq::empty(),
                },
                ..s
            },
            Phase::Replaying => if s.markers.len() == 0 {
                s
            } else {
                let (key, deleted_at) = s.markers[0];
                SyncState {
                    markers: s.markers.drop_first(),
                    delete: match outcome {
                        OutcomeSpec::Time(Some(modified)) if !modified.later_than(
                            deleted_at,
                        ) => Some(path::normalized(key)),
                        _ => None,
                    },
                    ..s
                }
            },
            Phase::AwaitingListing => {
                let listing = match outcome {
                    OutcomeSpec::Listing(l) => l,
                    _ => Seq::empty(),
                };
                SyncState { phase: Phase::Refreshing, listing, todo: listing, ..s }
            },
            Phase::Refreshing => if s.todo.len() == 0 {
                s
            } else {
                SyncState {
                    todo: s.todo.drop_first(),
                    delete: if outcome is SourceFailed {
                        Some(s.todo[0].location)
                    } else {
                        None
                    },
                    ..s
                }
            },
            Phase::Cleaning => if s.todo.len() == 0 {
                s
            } else {
                let rest = SyncState { todo: s.todo.drop_first(), stage: Stage::Unread, ..s };
                let location = s.todo[0].location;
                match s.stage {
                    Stage::Unread => match outcome {
                        OutcomeSpec::Time(Some(t)) => SyncState { stage: Stage::Read(t), ..s },
                        _ => rest,
                    },
                    Stage::Read(t) => match outcome {
                        OutcomeSpec::Present(true) => SyncState { stage: Stage::Confirmed(t), ..s },
                        _ => SyncState { delete: Some(location), ..rest },
                    },
                    Stage::Confirmed(t) => match outcome {
                        OutcomeSpec::Time(Some(live)) if live.later_than(t) => SyncState {
                            delete: Some(location),
                            ..rest
                        },
                        _ => rest,
                    },
                }
            },
            Phase::Ended => s,
        }
    }
}

/// A sync in progress.
#[derive(Debug)]
pub struct PartitionedSync {
    target: ShardId,
    phase: Phase,
    keys: Vec<String>,
    key_pos: usize,
    markers: Vec<(String, Timestamp)>,
    marker_pos: usize,
    listing: Vec<Scanned>,
    todo_pos: usize,
    stage: Stage,
    delete: Option<String>,
    replicated: usize,
}

impl View for PartitionedSync {
    type V = SyncState;

    closed spec fn view(&self) -> SyncState {
        SyncState {
            target: self.target,
            phase: self.phase,
            keys: text::views(self.keys@).skip(self.key_pos as int),
            markers: markers::marker_views(self.markers@).skip(self.marker_pos as int),
            listing: scan::scan_views(self.listing@),
            todo: scan::scan_views(self.listing@).skip(self.todo_pos as int),
            stage: self.stage,
            delete: text::opt_view(self.delete),
            replicated: self.replicated,
        }
    }
}

/// Begins to bring a shard up to date.
pub fn partitioned_sync(store: &ShardedObjectStore, target_shard: ShardId) -> (s: PartitionedSync)
    ensures
        s@ == sync_begun(store@, target_shard),
{
    let under = store.find_under_replicated();
    assert(balance::count_views(under@).len() == balance::under_replicated(store@).len());
    let keys = store.under_replicated_keys(under.len());
    let s = PartitionedSync {
        target: target_shard,
        phase: Phase::Copying,
        keys,
        key_pos: 0,
        markers: Vec::new(),
        marker_pos: 0,
        listing: Vec::new(),
        todo_pos: 0,
        stage: Stage::Unread,
        delete: None,
        replicated: 0,
    };
    proof {
        assert(s@.keys =~= balance::under_replicated(store@));
        assert(s@.markers =~= Seq::<(Seq<char>, Timestamp)>::empty());
        assert(s@.listing =~= Seq::<scan::ScanSpec>::empty());
        assert(s@.todo =~= Seq::<scan::ScanSpec>::empty());
    }
    s
}

impl ShardedObjectStore {
    fn find_source(&self, key: &str, target: ShardId) -> (r: Option<ShardId>)
        ensures
            r == source_of(self@, key@, target),
    {
        match self.placement(key) {
            Some(e) => self.healthy_source(e.shards.as_slice(), Some(target)),
            None => None,
        }
    }

    /// Whether a file is the sidecar of an object that the catalog has with metadata.
    fn has_metadata_in(&self, location: &str) -> (r: bool)
        ensures
            r == holds_metadata(self@, location@),
    {
        if !is_sidecar(location) {
            assert forall|k: Seq<char>| metadata::sidecar_of(k) != location@ by {
                metadata::a_sidecar_is_known_by_its_name(k);
            }
            return false;
        }
        let map = self.catalog().with_entries();
        let n: usize = map.len();
        let ghost keys = balance::keys_of(self@);
        let mut i: usize = 0;
        while i < n
            invariant
                i <= n,
                n == keys.len(),
                keys == balance::keys_of(self@),
                map@ == self@.entries,
                forall|j: int|
                    0 <= j < i ==> self@.entries[#[trigger] keys[j]].meta_len == 0
                        || metadata::sidecar_of(keys[j]) != location@,
            decreases n - i,
        {
            if map.value_at(i).meta_len > 0 && str_eq(
                meta_sidecar_path(map.key_at(i).as_str()).as_str(),
                location,
            ) {
                assert(self@.entries.contains_key(keys[i as int]));
                return true;
            }
            i = i + 1;
        }
        assert forall|k: Seq<char>| #[trigger]
            self@.entries.contains_key(k) implies self@.entries[k].meta_len == 0
            || metadata::sidecar_of(k) != location@ by {
            assert(keys.to_set().contains(k));
            let j = keys.index_of(k);
            assert(keys[j] == k);
        }
        false
    }

    /// Whether an object on a shard stays as it is, and otherwise what to replace it
    /// by, if anything.
    fn refresh_object(&self, target: ShardId, o: &Scanned) -> (r: Option<Option<ShardId>>)
        ensures
            r == (match refresh(self@, target, o@) {
                Refresh::Keep => None,
                Refresh::Remove => Some(None),
                Refresh::Replace(source) => Some(Some(source)),
            }),
    {
        let key = o.location.as_str();
        if ShardedObjectStore::is_delete_marker(key) {
            return None;
        }
        match self.placement(key) {
            None => {
                if self.has_metadata_in(key) {
                    None
                } else {
                    Some(None)
                }
            },
            Some(e) => {
                if e.updated.is_after(&o.last_modified) {
                    Some(self.find_source(key, target))
                } else {
                    None
                }
            },
        }
    }
}

impl PartitionedSync {
    #[verifier::type_invariant]
    spec fn inv(&self) -> bool {
        &&& self.key_pos <= self.keys@.len()
        &&& self.marker_pos <= self.markers@.len()
        &&& self.todo_pos <= self.listing@.len()
    }

    /// What comes next, given the cluster as it is.
    pub fn next(&mut self, store: &ShardedObjectStore) -> (step: SyncStep)
        ensures
            (final(self)@, step@) == sync_next(store@, old(self)@),
    {
        proof {
            use_type_invariant(&*self);
        }
        loop
            invariant
                self.key_pos <= self.keys@.len(),
                self.marker_pos <= self.markers@.len(),
                self.todo_pos <= self.listing@.len(),
                sync_next(store@, self@) == sync_next(store@, old(self)@),
            decreases
                    rank(self.phase),
                    (self.keys@.len() - self.key_pos) + (self.listing@.len() - self.todo_pos),
        {
            let ghost objects = scan::scan_views(self.listing@);
            proof {
                if self.key_pos < self.keys@.len() {
                    assert(self@.keys[0] == self.keys@[self.key_pos as int]@);
                    assert(self@.keys.drop_first() =~= text::views(self.keys@).skip(
                        self.key_pos + 1,
                    ));
                }
                if self.marker_pos < self.markers@.len() {
                    assert(self@.markers[0].0 == self.markers@[self.marker_pos as int].0@);
                }
                if self.todo_pos < self.listing@.len() {
                    assert(self@.todo[0] == self.listing@[self.todo_pos as int]@);
                    assert(self@.todo.drop_first() =~= objects.skip(self.todo_pos + 1));
                }
                assert(objects.skip(0) =~= objects);
            }
            if let Some(location) = &self.delete {
                return SyncStep::Delete(location.clone());
            }
            match self.phase {
                Phase::Copying => {
                    if self.key_pos >= self.keys.len() {
                        self.phase = Phase::AwaitingMarkers;
                    } else {
                        let key = self.keys[self.key_pos].clone();
                        if let Some(source) = store.find_source(key.as_str(), self.target) {
                            return SyncStep::Copy { key, source };
                        }
                        self.key_pos = self.key_pos + 1;
                    }
                },
                Phase::AwaitingMarkers => {
                    return SyncStep::ListMarkers;
                },
                Phase::Replaying => {
                    if self.marker_pos < self.markers.len() {
                        return SyncStep::Head(path_from(self.markers[self.marker_pos].0.as_str()));
                    }
                    self.phase = Phase::AwaitingListing;
                },
                Phase::AwaitingListing => {
                    return SyncStep::ListTarget;
                },
                Phase::Refreshing => {
                    if self.todo_pos >= self.listing.len() {
                        self.phase = Phase::Cleaning;
                        self.todo_pos = 0;
                    } else {
                        let location = self.listing[self.todo_pos].location.clone();
                        match store.refresh_object(self.target, &self.listing[self.todo_pos]) {
                            None => {
                                self.todo_pos = self.todo_pos + 1;
                            },
                            Some(None) => {
                                self.todo_pos = self.todo_pos + 1;
                                self.delete = Some(location.clone());
                                return SyncStep::Delete(location);
                            },
                            Some(Some(source)) => {
                                return SyncStep::Replace { location, source };
                            },
                        }
                    }
                },
                Phase::Cleaning => {
                    if self.todo_pos >= self.listing.len() {
                        self.phase = Phase::Ended;
                        return SyncStep::Done;
                    }
                    let location = self.listing[self.todo_pos].location.clone();
                    match strip_prefix(location.as_str(), "__deleted__/") {
                        None => {
                            self.todo_pos = self.todo_pos + 1;
                        },
                        Some(key) => {
                            return match self.stage {
                                Stage::Unread => SyncStep::ReadMarker(location),
                                Stage::Read(_) => SyncStep::AskMarker(key.to_owned()),
                                Stage::Confirmed(_) => SyncStep::AskLive(key.to_owned()),
                            };
                        },
                    }
                },
                Phase::Ended => {
                    return SyncStep::Done;
                },
            }
        }
    }

    /// Takes the outcome of the step that was due.
    pub fn report(&mut self, outcome: SyncOutcome)
        ensures
            final(self)@ == sync_reported(old(self)@, outcome@),
    {
        proof {
            use_type_invariant(&*self);
            let objects = scan::scan_views(self.listing@);
            if self.key_pos < self.keys@.len() {
                assert(self@.keys.drop_first() =~= text::views(self.keys@).skip(self.key_pos + 1));
            }
            if self.marker_pos < self.markers@.len() {
                assert(self@.markers[0].0 == self.markers@[self.marker_pos as int].0@);
                assert(self@.markers.drop_first() =~= markers::marker_views(self.markers@).skip(
                    self.marker_pos + 1,
                ));
            }
            if self.todo_pos < self.listing@.len() {
                assert(self@.todo[0] == self.listing@[self.todo_pos as int]@);
                assert(self@.todo.drop_first() =~= objects.skip(self.todo_pos + 1));
            }
        }
        if self.delete.is_some() {
            self.delete = None;
            return;
        }
        match self.phase {
            Phase::Copying => {
                if self.key_pos < self.keys.len() {
                    self.key_pos = self.key_pos + 1;
                    if let SyncOutcome::Succeeded = outcome {
                        self.replicated = count_up(self.replicated);
                    }
                }
            },
            Phase::AwaitingMarkers => {
                let mut list: Vec<(String, Timestamp)> = match outcome {
                    SyncOutcome::Markers(m) => m,
                    _ => Vec::new(),
                };
                proof {
                    let views = markers::marker_views(list@);
                    assert(views.skip(0) =~= views);
                    if !(outcome is Markers) {
                        assert(views =~= Seq::<(Seq<char>, Timestamp)>::empty());
                    }
                }
                self.marker_pos = 0;
                std::mem::swap(&mut self.markers, &mut list);
                self.phase = Phase::Replaying;
            },
            Phase::Replaying => {
                if self.marker_pos < self.markers.len() {
                    let pos: usize = self.marker_pos;
                    self.marker_pos = pos + 1;
                    if let SyncOutcome::Time(Some(modified)) = outcome {
                        if !modified.is_after(&self.markers[pos].1) {
                            self.delete = Some(path_from(self.markers[pos].0.as_str()));
                        }
                    }
                }
            },
            Phase::AwaitingListing => {
                let mut list: Vec<Scanned> = match outcome {
                    SyncOutcome::Listing(l) => l,
                    _ => Vec::new(),
                };
                proof {
                    let views = scan::scan_views(list@);
                    assert(views.skip(0) =~= views);
                    if !(outcome is Listing) {
                        assert(views =~= Seq::<scan::ScanSpec>::empty());
                    }
                }
                self.todo_pos = 0;
                std::mem::swap(&mut self.listing, &mut list);
                self.phase = Phase::Refreshing;
            },
            Phase::Refreshing => {
                if self.todo_pos < self.listing.len() {
                    let pos: usize = self.todo_pos;
                    self.todo_pos = pos + 1;
                    if let SyncOutcome::SourceFailed = outcome {
                        self.delete = Some(self.listing[pos].location.clone());
                    }
                }
            },
            Phase::Cleaning => {
                if self.todo_pos < self.listing.len() {
                    let pos: usize = self.todo_pos;
                    match (self.stage, outcome) {
                        (Stage::Unread, SyncOutcome::Time(Some(t))) => {
                            self.stage = Stage::Read(t);
                        },
                        (Stage::Unread, _) => {
                            self.todo_pos = pos + 1;
                        },
                        (Stage::Read(t), SyncOutcome::Present(true)) => {
                            self.stage = Stage::Confirmed(t);
                        },
                        (Stage::Read(_), _) => {
                            self.delete = Some(self.listing[pos].location.clone());
                            self.todo_pos = pos + 1;
                            self.stage = Stage::Unread;
                        },
                        (Stage::Confirmed(t), SyncOutcome::Time(Some(live))) => {
                            if live.is_after(&t) {
                                self.delete = Some(self.listing[pos].location.clone());
                            }
                            self.todo_pos = pos + 1;
                            self.stage = Stage::Unread;
                        },
                        (Stage::Confirmed(_), _) => {
                            self.todo_pos = pos + 1;
                            self.stage = Stage::Unread;
                        },
                    }
                }
            },
            Phase::Ended => {},
        }
    }

    /// How many objects were copied to the shard.
    pub fn replicated(&self) -> (n: usize)
        ensures
            n == self@.replicated,
    {
        self.replicated
    }
}

// -- Laws -------------------------------------------------------------------

/// An object that was last modified no later than its deletion is deleted from the
/// shard next; one that was put again after it is not.
pub proof fn replaying_deletes_exactly_what_was_deleted(
    c: store::ClusterState,
    s: SyncState,
    modified: Timestamp,
)
    requires
        s.phase == Phase::Replaying,
        s.delete is None,
        s.markers.len() > 0,
    ensures
        ({
            let after = sync_reported(s, OutcomeSpec::Time(Some(modified)));
            &&& !modified.later_than(s.markers[0].1) ==> sync_next(c, after).1 == StepSpec::Delete(
                path::normalized(s.markers[0].0),
            )
            &&& modified.later_than(s.markers[0].1) ==> after.delete is None
        }),
{
}

/// An object on the shard that the catalog does not have is deleted, so that it does
/// not come back, unless it is the metadata of one that the catalog has.
pub proof fn an_object_without_an_entry_does_not_come_back(c: store::ClusterState, s: SyncState)
    requires
        s.phase == Phase::Refreshing,
        s.delete is None,
        s.todo.len() > 0,
        !markers::is_marker(s.todo[0].location),
        !c.entries.contains_key(s.todo[0].location),
        !holds_metadata(c, s.todo[0].location),
    ensures
        sync_next(c, s).1 == StepSpec::Delete(s.todo[0].location),
{
}

/// An object on the shard that is older than the catalog says is replaced from a
/// healthy shard that holds it, or else deleted, and never kept.
pub proof fn an_outdated_object_is_not_kept(c: store::ClusterState, s: SyncState)
    requires
        s.phase == Phase::Refreshing,
        s.delete is None,
        s.todo.len() > 0,
        !markers::is_marker(s.todo[0].location),
        c.entries.contains_key(s.todo[0].location),
        c.entries[s.todo[0].location].updated.later_than(s.todo[0].last_modified),
    ensures
        ({
            let step = sync_next(c, s).1;
            ||| step == StepSpec::Delete(s.todo[0].location)
            ||| (step matches StepSpec::Replace { location, source } && location
                == s.todo[0].location && source != s.target && balance::is_healthy(
                c.shards,
                source,
            ) && c.entries[location].shards.contains(source))
        }),
{
    repair::lemma_healthy_source(
        c.shards,
        c.entries[s.todo[0].location].shards,
        Some(s.target),
    );
}

/// The metadata of an object that the catalog has with metadata is not deleted from the
/// shard when what it lists is looked at.
pub proof fn metadata_stays_beside_its_object(c: store::ClusterState, s: SyncState, key: Seq<char>)
    requires
        s.phase == Phase::Refreshing,
        s.delete is None,
        s.todo.len() > 0,
        c.entries.contains_key(key),
        c.entries[key].meta_len > 0,
        s.todo[0].location == metadata::sidecar_of(key),
        !c.entries.contains_key(s.todo[0].location),
    ensures
        sync_next(c, s) == sync_next(c, SyncState { todo: s.todo.drop_first(), ..s }),
{
    assert(holds_metadata(c, s.todo[0].location));
}

/// Whether a shard holds an object and is healthy, and is not the one to bring up to
/// date.
pub open spec fn can_give(c: store::ClusterState, target: usize, key: Seq<char>, id: usize) -> bool {
    &&& c.entries[key].shards.contains(id)
    &&& id != target
    &&& id < c.shards.len()
    &&& c.shards[id as int].health == ShardHealth::Healthy
}

/// Whether a shard holds a copy that counts: it is healthy, or is being synced.
pub open spec fn is_up(c: store::ClusterState) -> spec_fn(usize) -> bool {
    |id: usize|
        id < c.shards.len() && (c.shards[id as int].health == ShardHealth::Healthy
            || c.shards[id as int].health == ShardHealth::Syncing)
}

/// Whether an object has fewer copies that count than should be kept, and one of them
/// can be copied to the shard to bring up to date.
pub open spec fn is_lacking(c: store::ClusterState, target: usize, key: Seq<char>) -> bool {
    &&& c.entries.contains_key(key)
    &&& c.entries[key].shards.filter(is_up(c)).len() < c.rf
    &&& exists|id: usize| can_give(c, target, key, id)
}

/// A sync after some steps of it were carried out, each with an outcome.
pub open spec fn sync_after(c: store::ClusterState, s: SyncState, outcomes: Seq<OutcomeSpec>) -> SyncState
    decreases outcomes.len(),
{
    if outcomes.len() == 0 {
        s
    } else {
        sync_reported(sync_next(c, sync_after(c, s, outcomes.drop_last())).0, outcomes.last())
    }
}

/// The number of outcomes that are successes.
pub open spec fn successes(outcomes: Seq<OutcomeSpec>) -> nat {
    outcomes.filter(|o: OutcomeSpec| o is Succeeded).len()
}

proof fn lemma_has_source(c: store::ClusterState, key: Seq<char>, target: usize)
    requires
        c.entries.contains_key(key),
    ensures
        match source_of(c, key, target) {
            Some(id) => can_give(c, target, key, id),
            None => forall|id: usize| !can_give(c, target, key, id),
        },
{
    repair::lemma_healthy_source(c.shards, c.entries[key].shards, Some(target));
    lemma_no_source(c.shards, c.entries[key].shards, target);
}

proof fn lemma_no_source(shards: Seq<store::ShardInfo>, held: Seq<usize>, target: usize)
    ensures
        repair::healthy_source(shards, held, Some(target)) is None ==> forall|id: usize| #[trigger]
            held.contains(id) && id != target ==> !balance::is_healthy(shards, id),
    decreases held.len(),
{
    if held.len() > 0 && repair::healthy_source(shards, held, Some(target)) is None {
        lemma_no_source(shards, held.drop_first(), target);
        assert forall|id: usize| #[trigger] held.contains(id) && id
            != target implies !balance::is_healthy(shards, id) by {
            let i = held.index_of(id);
            if i > 0 {
                assert(held.drop_first()[i - 1] == id);
                assert(held.drop_first().contains(id));
            }
        }
    }
}

/// Whether an object can be copied to the shard to bring up to date.
spec fn has_source(c: store::ClusterState, target: usize) -> spec_fn(Seq<char>) -> bool {
    |k: Seq<char>| source_of(c, k, target) is Some
}

proof fn lemma_filter_first<T>(s: Seq<T>, pred: spec_fn(T) -> bool)
    requires
        s.len() > 0,
    ensures
        s.filter(pred) == if pred(s[0]) {
            seq![s[0]] + s.drop_first().filter(pred)
        } else {
            s.drop_first().filter(pred)
        },
{
    let one = seq![s[0]];
    assert(s =~= one + s.drop_first());
    Seq::filter_distributes_over_add(one, s.drop_first(), pred);
    assert(one.filter(pred) =~= if pred(s[0]) {
        one
    } else {
        Seq::empty()
    }) by {
        reveal(Seq::filter);
        assert(one.drop_last() =~= Seq::<T>::empty());
        assert(Seq::<T>::empty().filter(pred) =~= Seq::<T>::empty());
    }
    assert(Seq::<T>::empty() + s.drop_first().filter(pred) =~= s.drop_first().filter(pred));
}

/// The next step while objects are copied: the first of them that can be.
proof fn lemma_copying(c: store::ClusterState, s: SyncState)
    requires
        s.phase == Phase::Copying,
        s.delete is None,
    ensures
        ({
            let left = s.keys.filter(has_source(c, s.target));
            let (after, step) = sync_next(c, s);
            if left.len() == 0 {
                step == StepSpec::ListMarkers
            } else {
                &&& after.phase == Phase::Copying
                &&& after.delete is None
                &&& after.target == s.target
                &&& after.replicated == s.replicated
                &&& after.keys.len() > 0
                &&& after.keys.drop_first().filter(has_source(c, s.target)) == left.drop_first()
                &&& step == StepSpec::Copy {
                    key: left[0],
                    source: source_of(c, left[0], s.target)->0,
                }
                &&& source_of(c, left[0], s.target) is Some
            }
        }),
    decreases s.keys.len(),
{
    let pred = has_source(c, s.target);
    if s.keys.len() == 0 {
        assert(s.keys.filter(pred) =~= Seq::<Seq<char>>::empty()) by {
            reveal(Seq::filter);
        }
        assert(sync_next(c, SyncState { phase: Phase::AwaitingMarkers, ..s }).1
            == StepSpec::ListMarkers);
    } else {
        lemma_filter_first(s.keys, pred);
        let rest = s.keys.drop_first();
        if source_of(c, s.keys[0], s.target) is None {
            lemma_copying(c, SyncState { keys: rest, ..s });
        } else {
            assert((seq![s.keys[0]] + rest.filter(pred)).drop_first() =~= rest.filter(pred));
        }
    }
}

proof fn lemma_lacking(c: store::ClusterState, target: usize, keys: Seq<Seq<char>>)
    requires
        forall|i: int| 0 <= i < keys.len() ==> c.entries.contains_key(#[trigger] keys[i]),
    ensures
        keys.filter(|k: Seq<char>| balance::live_copies(c, k) < c.rf).filter(has_source(c, target))
            == keys.filter(|k: Seq<char>| is_lacking(c, target, k)),
    decreases keys.len(),
{
    let few = |k: Seq<char>| balance::live_copies(c, k) < c.rf;
    let lacking = |k: Seq<char>| is_lacking(c, target, k);
    let pred = has_source(c, target);
    reveal(Seq::filter);
    if keys.len() > 0 {
        let head = keys.drop_last();
        let k = keys.last();
        assert forall|i: int| 0 <= i < head.len() implies c.entries.contains_key(
            #[trigger] head[i],
        ) by {
            assert(head[i] == keys[i]);
        }
        lemma_lacking(c, target, head);
        assert(c.entries.contains_key(keys[keys.len() - 1]));
        lemma_has_source(c, k, target);
        assert(is_up(c) =~= (|id: usize| balance::is_live(c.shards, id)));
        assert(few(k) && pred(k) <==> lacking(k)) by {
            if pred(k) {
                assert(can_give(c, target, k, source_of(c, k, target)->0));
            }
        }
        if few(k) {
            head.filter(few).lemma_filter_push(k, pred);
        }
    }
}

proof fn lemma_still_copying(
    c: store::ClusterState,
    s: SyncState,
    outcomes: Seq<OutcomeSpec>,
    keys: Seq<Seq<char>>,
)
    requires
        s.phase == Phase::Copying,
        s.delete is None,
        s.replicated == 0,
        keys == s.keys.filter(has_source(c, s.target)),
        outcomes.len() <= keys.len(),
    ensures
        ({
            let after = sync_after(c, s, outcomes);
            &&& after.phase == Phase::Copying
            &&& after.delete is None
            &&& after.target == s.target
            &&& after.keys.filter(has_source(c, s.target)) == keys.skip(outcomes.len() as int)
            &&& successes(outcomes) <= usize::MAX ==> after.replicated == successes(outcomes)
        }),
    decreases outcomes.len(),
{
    let won = |o: OutcomeSpec| o is Succeeded;
    reveal(Seq::filter);
    if outcomes.len() == 0 {
        assert(keys.skip(0) =~= keys);
        assert(outcomes.filter(won) =~= Seq::<OutcomeSpec>::empty());
    } else {
        let head = outcomes.drop_last();
        lemma_still_copying(c, s, head, keys);
        let before = sync_after(c, s, head);
        lemma_copying(c, before);
        assert(keys.skip(head.len() as int).drop_first() =~= keys.skip(outcomes.len() as int));
    }
}

/// A sync first copies to the shard, one after the other, exactly the objects that have
/// too few copies and of which another shard that is healthy has one, each once and from
/// such a shard, whatever becomes of the others. Then it lists the delete markers. It
/// counts the copies that succeeded.
pub proof fn a_sync_copies_what_has_too_few_copies(
    c: store::ClusterState,
    target: usize,
    outcomes: Seq<OutcomeSpec>,
    keys: Seq<Seq<char>>,
)
    requires
        c.entries.dom().finite(),
        keys == balance::keys_of(c).filter(|k: Seq<char>| is_lacking(c, target, k)),
        outcomes.len() <= keys.len(),
    ensures
        keys.no_duplicates(),
        forall|k: Seq<char>| #[trigger] keys.contains(k) <==> is_lacking(c, target, k),
        ({
            let s = sync_after(c, sync_begun(c, target), outcomes);
            let step = sync_next(c, s).1;
            &&& outcomes.len() < keys.len() ==> (step matches StepSpec::Copy { key, source } && key
                == keys[outcomes.len() as int] && can_give(c, target, key, source))
            &&& outcomes.len() == keys.len() ==> step == StepSpec::ListMarkers
            &&& successes(outcomes) <= usize::MAX ==> s.replicated == successes(outcomes)
        }),
{
    let all = balance::keys_of(c);
    let lacking = |k: Seq<char>| is_lacking(c, target, k);
    string_map::lemma_sorted_exists(c.entries.dom());
    string_map::lemma_ascending_distinct(all);
    assert forall|i: int| 0 <= i < all.len() implies c.entries.contains_key(#[trigger] all[i]) by {
        assert(all.to_set().contains(all[i]));
    }
    lemma_lacking(c, target, all);
    catalog::lemma_filter_members(all, lacking);
    assert forall|k: Seq<char>| #[trigger] keys.contains(k) <==> is_lacking(c, target, k) by {
        if is_lacking(c, target, k) {
            assert(all.to_set().contains(k));
            all.lemma_filter_contains(lacking, all.index_of(k));
        }
    }
    catalog::lemma_filter_unique(all, lacking);
    let begun = sync_begun(c, target);
    lemma_still_copying(c, begun, outcomes, keys);
    let s = sync_after(c, begun, outcomes);
    lemma_copying(c, s);
    if outcomes.len() < keys.len() {
        let key = keys[outcomes.len() as int];
        assert(keys.skip(outcomes.len() as int)[0] == key);
        assert(keys.contains(key));
        lemma_has_source(c, key, target);
    }
}

/// When the markers of the cluster have been listed, the time of each of their objects on
/// the shard is asked for, in order, and then what the shard lists. If they could not be
/// listed there are none.
pub proof fn every_marker_is_replayed(
    c: store::ClusterState,
    s: SyncState,
    markers: Seq<(Seq<char>, Timestamp)>,
    outcome: OutcomeSpec,
)
    requires
        s.delete is None,
    ensures
        s.phase == Phase::AwaitingMarkers ==> ({
            let after = sync_reported(s, OutcomeSpec::Markers(markers));
            &&& after.phase == Phase::Replaying && after.markers == markers && after.delete is None
            &&& outcome !is Markers ==> sync_reported(s, outcome).markers.len() == 0
        }),
        s.phase == Phase::Replaying && s.markers.len() > 0 ==> sync_next(c, s) == (
            s,
            StepSpec::Head(path::normalized(s.markers[0].0)),
        ) && sync_reported(s, outcome).markers == s.markers.drop_first(),
        s.phase == Phase::Replaying && s.markers.len() == 0 ==> sync_next(c, s).1
            == StepSpec::ListTarget,
        s.phase == Phase::Replaying && s.markers.len() > 0 && outcome !is Time ==> sync_reported(
            s,
            outcome,
        ).delete is None,
        s.phase == Phase::Replaying && s.markers.len() > 0 ==> sync_reported(
            s,
            OutcomeSpec::Time(None),
        ).delete is None,
{
    if s.phase == Phase::Replaying && s.markers.len() == 0 {
        assert(sync_next(c, SyncState { phase: Phase::AwaitingListing, ..s }).1
            == StepSpec::ListTarget);
    }
}

/// What has to be deleted from the shard is deleted before anything else is done, once.
pub proof fn a_deletion_comes_first(
    c: store::ClusterState,
    s: SyncState,
    location: Seq<char>,
    outcome: OutcomeSpec,
)
    requires
        s.delete == Some(location),
    ensures
        sync_next(c, s) == (s, StepSpec::Delete(location)),
        sync_reported(s, outcome) == (SyncState { delete: None, ..s }),
{
}

/// What the shard lists is looked at twice, from the first to the last: once for what is
/// out of date, and once for delete markers.
pub proof fn everything_that_is_listed_is_looked_at(
    s: SyncState,
    listing: Seq<scan::ScanSpec>,
    outcome: OutcomeSpec,
)
    requires
        s.delete is None,
        s.phase == Phase::AwaitingListing,
    ensures
        ({
            let after = sync_reported(s, OutcomeSpec::Listing(listing));
            &&& after.phase == Phase::Refreshing && after.todo == listing && after.listing == listing
            &&& outcome !is Listing ==> sync_reported(s, outcome).todo.len() == 0
        }),
{
}

/// An object on the shard that is as new as the catalog says, and every delete marker, is
/// kept when what is out of date is looked for.
pub proof fn what_is_up_to_date_is_kept(c: store::ClusterState, s: SyncState)
    requires
        s.phase == Phase::Refreshing,
        s.delete is None,
        s.todo.len() > 0,
        markers::is_marker(s.todo[0].location) || (c.entries.contains_key(s.todo[0].location)
            && !c.entries[s.todo[0].location].updated.later_than(s.todo[0].last_modified)),
    ensures
        sync_next(c, s) == sync_next(c, SyncState { todo: s.todo.drop_first(), ..s }),
{
}

/// An object that is out of date is replaced if a healthy shard other than this one holds
/// it. If it could not be opened there, it is deleted from the shard, and otherwise it
/// is left.
pub proof fn an_outdated_object_is_replaced_where_it_can_be(
    c: store::ClusterState,
    s: SyncState,
    id: usize,
    outcome: OutcomeSpec,
)
    requires
        s.phase == Phase::Refreshing,
        s.delete is None,
        s.todo.len() > 0,
        !markers::is_marker(s.todo[0].location),
        c.entries.contains_key(s.todo[0].location),
        c.entries[s.todo[0].location].updated.later_than(s.todo[0].last_modified),
        can_give(c, s.target, s.todo[0].location, id),
    ensures
        sync_next(c, s).0 == s,
        sync_next(c, s).1 matches StepSpec::Replace { location, source } && location
            == s.todo[0].location && can_give(c, s.target, location, source),
        sync_reported(s, outcome).delete == if outcome is SourceFailed {
            Some(s.todo[0].location)
        } else {
            None
        },
        sync_reported(s, outcome).todo == s.todo.drop_first(),
{
    lemma_has_source(c, s.todo[0].location, s.target);
}

/// A delete marker on the shard is read; if it could be, the cluster is asked for it, and
/// if the cluster has it, for the object. It is deleted from the shard if the cluster
/// does not have it, or if the object was put again after the deletion, and kept
/// otherwise.
pub proof fn a_marker_is_kept_only_while_it_is_needed(
    c: store::ClusterState,
    s: SyncState,
    key: Seq<char>,
    deleted_at: Timestamp,
    outcome: OutcomeSpec,
)
    requires
        s.phase == Phase::Cleaning,
        s.delete is None,
        s.stage == Stage::Unread,
        s.todo.len() > 0,
        s.todo[0].location == markers::marker_of(key),
    ensures
        ({
            let location = s.todo[0].location;
            let read = sync_reported(s, OutcomeSpec::Time(Some(deleted_at)));
            let known = sync_reported(read, OutcomeSpec::Present(true));
            let rest = SyncState { todo: s.todo.drop_first(), ..s };
            let gone = SyncState { delete: Some(location), ..rest };
            &&& sync_next(c, s) == (s, StepSpec::ReadMarker(location))
            &&& outcome !is Time || outcome == OutcomeSpec::Time(None) ==> sync_reported(s, outcome)
                == rest
            &&& sync_next(c, read) == (read, StepSpec::AskMarker(key))
            &&& outcome != OutcomeSpec::Present(true) ==> sync_reported(read, outcome) == gone
            &&& sync_next(c, known) == (known, StepSpec::AskLive(key))
            &&& (outcome matches OutcomeSpec::Time(Some(live)) && live.later_than(deleted_at))
                ==> sync_reported(known, outcome) == gone
            &&& !(outcome matches OutcomeSpec::Time(Some(live)) && live.later_than(deleted_at))
                ==> sync_reported(known, outcome) == rest
        }),
{
    markers::a_marker_gives_back_its_key(key);
    assert(marked_key(markers::marker_of(key)) == key);
}

/// When delete markers are looked for, nothing else is touched, and when nothing is left
/// the sync is done.
pub proof fn only_markers_are_cleaned(c: store::ClusterState, s: SyncState)
    requires
        s.phase == Phase::Cleaning,
        s.delete is None,
    ensures
        s.todo.len() > 0 && !markers::is_marker(s.todo[0].location) ==> sync_next(c, s)
            == sync_next(c, SyncState { todo: s.todo.drop_first(), ..s }),
        s.todo.len() == 0 ==> sync_next(c, s).1 == StepSpec::Done,
{
}

/// When what is out of date has been looked for, what the shard lists is looked at again
/// for delete markers: the first of them is read.
pub proof fn markers_are_cleaned_after_everything_else(c: store::ClusterState, s: SyncState, i: int)
    requires
        s.phase == Phase::Refreshing,
        s.delete is None,
        s.stage == Stage::Unread,
        s.todo.len() == 0,
        0 <= i < s.listing.len(),
        markers::is_marker(s.listing[i].location),
        forall|k: int|
            0 <= k < i ==> !markers::is_marker((#[trigger] s.listing[k]).location),
    ensures
        sync_next(c, s).1 == StepSpec::ReadMarker(s.listing[i].location),
{
    lemma_first_marker(c, SyncState { phase: Phase::Cleaning, todo: s.listing, ..s }, i);
}

proof fn lemma_first_marker(c: store::ClusterState, s: SyncState, i: int)
    requires
        s.phase == Phase::Cleaning,
        s.delete is None,
        s.stage == Stage::Unread,
        0 <= i < s.todo.len(),
        markers::is_marker(s.todo[i].location),
        forall|k: int| 0 <= k < i ==> !markers::is_marker((#[trigger] s.todo[k]).location),
    ensures
        sync_next(c, s).1 == StepSpec::ReadMarker(s.todo[i].location),
    decreases i,
{
    if i > 0 {
        assert(!markers::is_marker(s.todo[0].location));
        let rest = SyncState { todo: s.todo.drop_first(), ..s };
        assert(rest.todo[i - 1] == s.todo[i]);
        assert forall|k: int| 0 <= k < i - 1 implies !markers::is_marker(
            (#[trigger] rest.todo[k]).location,
        ) by {
            assert(rest.todo[k] == s.todo[k + 1]);
        }
        lemma_first_marker(c, rest, i - 1);
    }
}

/// Each step of a sync is done once, whatever came of it. A copy is counted exactly if it
/// succeeded, and an object whose source failed is deleted next.
pub proof fn each_step_of_a_sync_is_done_once(s: SyncState, outcome: OutcomeSpec)
    requires
        s.delete is None,
    ensures
        ({
            let after = sync_reported(s, outcome);
            &&& s.phase == Phase::Copying && s.keys.len() > 0 ==> {
                &&& after.keys == s.keys.skip(1)
                &&& after.phase == s.phase && after.todo == s.todo && after.delete is None
                &&& outcome is Succeeded ==> after.replicated == tally::up(s.replicated)
                &&& outcome !is Succeeded ==> after.replicated == s.replicated
            }
            &&& s.phase == Phase::Replaying && s.markers.len() > 0 ==> {
                &&& after.markers == s.markers.skip(1)
                &&& after.phase == s.phase && after.replicated == s.replicated
            }
            &&& s.phase == Phase::Refreshing && s.todo.len() > 0 ==> {
                &&& after.todo == s.todo.skip(1)
                &&& after.phase == s.phase && after.replicated == s.replicated
                &&& outcome is SourceFailed ==> after.delete == Some(s.todo[0].location)
                &&& outcome !is SourceFailed ==> after.delete is None
            }
        }),
{
}

/// The metadata of an object of the catalog stays beside it; any other file that the
/// catalog does not have is removed.
pub proof fn a_sidecar_stays_with_its_object(
    c: store::ClusterState,
    target: usize,
    o: scan::ScanSpec,
    k: Seq<char>,
)
    requires
        !markers::is_marker(o.location),
        !c.entries.contains_key(o.location),
    ensures
        c.entries.contains_key(k) && c.entries[k].meta_len > 0 && metadata::sidecar_of(k)
            == o.location ==> refresh(c, target, o) == Refresh::Keep,
        (forall|j: Seq<char>|
            #[trigger] c.entries.contains_key(j) && c.entries[j].meta_len > 0
                ==> metadata::sidecar_of(j) != o.location) ==> refresh(c, target, o)
            == Refresh::Remove,
{
}

} // verus!
