//! Delete markers.
//!
//! A delete marker is a small object whose key is the key of a deleted object under a
//! prefix of its own, and whose body is the time of deletion. It keeps a shard that
//! was away from bringing the object back.

use vstd::prelude::*;
use vstd::string::*;
use vstd::utf8::*;
use crate::catalog;
use crate::catalog::ObjectMeta;
use crate::error;
use crate::error::ShardError;
use crate::path;
use crate::path::path_from;
use crate::store;
use crate::store::{ShardHealth, ShardedObjectStore};
use crate::text;
use crate::text::{starts_with, strip_prefix};
use crate::time;
use crate::time::Timestamp;

verus! {

/// What the key of a delete marker starts with.
pub open spec fn marker_prefix() -> Seq<char> {
    "__deleted__/"@
}

/// The key of the delete marker of an object.
pub open spec fn marker_of(key: Seq<char>) -> Seq<char> {
    marker_prefix() + key
}

/// Whether a key is that of a delete marker.
pub open spec fn is_marker(key: Seq<char>) -> bool {
    marker_prefix().is_prefix_of(key)
}

impl ShardedObjectStore {
    /// The key of the delete marker of an object.
    pub fn delete_marker_key(key: &str) -> (r: String)
        ensures
            r@ == marker_of(key@),
            is_marker(r@),
    {
        let mut s = "__deleted__/".to_owned();
        s.append(key);
        assert(marker_prefix().is_prefix_of(s@));
        s
    }

    /// Whether a key is that of a delete marker.
    pub fn is_delete_marker(key: &str) -> (r: bool)
        ensures
            r == is_marker(key@),
    {
        starts_with(key, "__deleted__/")
    }
}

/// The time that the body of a delete marker holds.
pub open spec fn marker_time(body: Seq<u8>) -> Option<Timestamp> {
    if valid_utf8(body) {
        time::timestamp_of(time::rfc3339_time(decode_utf8(body)))
    } else {
        None
    }
}

/// The body of a delete marker: the time of deletion. It is read back as that time if
/// the time is an ordinary one.
pub fn marker_body(deleted_at: &Timestamp) -> (r: Option<String>)
    ensures
        text::opt_view(r) == time::rfc3339_text(deleted_at.secs, deleted_at.nanos),
        deleted_at.is_ordinary() ==> r is Some && marker_time(encode_utf8(r->0@)) == Some(
            *deleted_at,
        ),
{
    let r = deleted_at.to_rfc3339();
    proof {
        if deleted_at.is_ordinary() {
            encode_utf8_valid_utf8(r->0@);
            encode_utf8_decode_utf8(r->0@);
        }
    }
    r
}

/// The time that the body of a delete marker holds, if it holds one.
pub fn parse_marker(body: &[u8]) -> (r: Option<Timestamp>)
    ensures
        r == marker_time(body@),
{
    match core::str::from_utf8(body) {
        Ok(s) => Timestamp::from_rfc3339(s),
        Err(_) => None,
    }
}

/// Where on a shard the delete marker of an object stands.
pub open spec fn marker_location(key: Seq<char>) -> Seq<char> {
    path::normalized(marker_of(key))
}

/// Where on a shard the delete marker of an object stands.
pub fn delete_marker_path(key: &str) -> (r: String)
    ensures
        r@ == marker_location(key@),
{
    path_from(ShardedObjectStore::delete_marker_key(key).as_str())
}

impl ShardedObjectStore {
    /// The time at which an object was deleted, given what was read of its marker: nothing
    /// if that could not be read.
    pub fn get_delete_marker(body: Option<&Vec<u8>>) -> (r: Option<Timestamp>)
        ensures
            r == (match body {
                Some(b) => marker_time(b@),
                None => None,
            }),
    {
        match body {
            Some(b) => parse_marker(b.as_slice()),
            None => None,
        }
    }
}

// -- All markers ------------------------------------------------------------

/// The keys of the objects that some listed objects are the delete markers of.
pub open spec fn marked(list: Seq<catalog::ObjectSpec>) -> Seq<Seq<char>>
    decreases list.len(),
{
    if list.len() == 0 {
        Seq::empty()
    } else {
        let head = marked(list.drop_last());
        match text::after_prefix(list.last().location, marker_prefix()) {
            Some(key) => head.push(key),
            None => head,
        }
    }
}

/// The objects that the catalog lists under a prefix.
pub open spec fn catalog_listing(c: store::ClusterState, prefix: Option<Seq<char>>) -> Seq<
    catalog::ObjectSpec,
> {
    catalog::listing(c.entries, catalog::keys_with_prefix(c.entries, prefix))
}

/// The objects that have a time of deletion, with it.
pub open spec fn timed(keys: Seq<Seq<char>>, times: Seq<Option<Timestamp>>) -> Seq<
    (Seq<char>, Timestamp),
>
    decreases keys.len(),
{
    if keys.len() == 0 || times.len() != keys.len() {
        Seq::empty()
    } else {
        let head = timed(keys.drop_last(), times.drop_last());
        match times.last() {
            Some(t) => head.push((keys.last(), t)),
            None => head,
        }
    }
}

/// Markers, in the terms of the model.
pub open spec fn marker_views(v: Seq<(String, Timestamp)>) -> Seq<(Seq<char>, Timestamp)> {
    Seq::new(v.len(), |i: int| (v[i].0@, v[i].1))
}

fn marked_in(list: &Vec<ObjectMeta>) -> (r: Vec<String>)
    ensures
        text::views(r@) == marked(catalog::object_specs(list@)),
{
    let ghost all = catalog::object_specs(list@);
    let mut r: Vec<String> = Vec::new();
    let mut i: usize = 0;
    assert(text::views(r@) =~= marked(all.take(0)));
    while i < list.len()
        invariant
            i <= list.len(),
            all == catalog::object_specs(list@),
            text::views(r@) == marked(all.take(i as int)),
        decreases list.len() - i,
    {
        assert(all.take(i + 1).drop_last() =~= all.take(i as int));
        assert(all.take(i + 1).last() == list@[i as int]@);
        match strip_prefix(list[i].location.as_str(), "__deleted__/") {
            Some(key) => {
                let ghost before = r@;
                r.push(key.to_owned());
                assert(text::views(r@) =~= text::views(before).push(key@));
            },
            None => {},
        }
        i = i + 1;
    }
    assert(all.take(i as int) =~= all);
    r
}

impl ShardedObjectStore {
    /// The objects that have a delete marker in the catalog.
    pub fn marked_keys(&self) -> (r: Vec<String>)
        ensures
            text::views(r@) == marked(
                catalog_listing(self@, Some(path::normalized(marker_prefix()))),
            ),
    {
        let prefix = path_from("__deleted__/");
        self.keys_under(prefix.as_str())
    }

    /// The objects that have a delete marker in the catalog, given the path that
    /// markers stand under.
    pub fn keys_under(&self, prefix: &str) -> (r: Vec<String>)
        ensures
            text::views(r@) == marked(catalog_listing(self@, Some(prefix@))),
    {
        let list = self.catalog().list(Some(prefix));
        marked_in(&list)
    }
}

impl ShardedObjectStore {
    /// The objects that were deleted, with the times of deletion, given the time that was
    /// read of each marker. A marker that cannot be read is left out.
    pub fn list_delete_markers(keys: &Vec<String>, times: &Vec<Option<Timestamp>>) -> (r: Vec<
        (String, Timestamp),
    >)
        requires
            keys.len() == times.len(),
        ensures
            marker_views(r@) == timed(text::views(keys@), times@),
    {
        let ghost all = text::views(keys@);
        let mut r: Vec<(String, Timestamp)> = Vec::new();
        let mut i: usize = 0;
        assert(marker_views(r@) =~= timed(all.take(0), times@.take(0)));
        while i < keys.len()
            invariant
                i <= keys.len(),
                keys.len() == times.len(),
                all == text::views(keys@),
                marker_views(r@) == timed(all.take(i as int), times@.take(i as int)),
            decreases keys.len() - i,
        {
            assert(all.take(i + 1).drop_last() =~= all.take(i as int));
            assert(times@.take(i + 1).drop_last() =~= times@.take(i as int));
            match times[i] {
                Some(t) => {
                    let ghost before = r@;
                    r.push((keys[i].clone(), t));
                    assert(marker_views(r@) =~= marker_views(before).push((keys@[i as int]@, t)));
                },
                None => {},
            }
            i = i + 1;
        }
        assert(all.take(i as int) =~= all);
        assert(times@.take(i as int) =~= times@);
        r
    }
}

// -- Vacuum -----------------------------------------------------------------

/// Whether a shard keeps delete markers from being vacuumed: it may bring objects
/// back, or hold corrupt data. A shard that is syncing replays the markers itself.
pub open spec fn blocks_vacuum(s: store::ShardInfo) -> bool {
    s.health.away() || s.health == ShardHealth::Degraded
}

/// Whether a vacuum can run, or the first shard that keeps it from running.
pub open spec fn vacuum_check(shards: Seq<store::ShardInfo>) -> Result<(), error::ErrorSpec> {
    if exists|i: int| 0 <= i < shards.len() && blocks_vacuum(#[trigger] shards[i]) {
        let i = choose|i: int|
            0 <= i < shards.len() && blocks_vacuum(#[trigger] shards[i]) && forall|j: int|
                0 <= j < i ==> !blocks_vacuum(#[trigger] shards[j]);
        Err(error::ErrorSpec::VacuumOfflineShard { shard_id: i as usize })
    } else {
        Ok(())
    }
}

/// An outcome, in the terms of the model.
pub open spec fn check_view(r: Result<(), ShardError>) -> Result<(), error::ErrorSpec> {
    match r {
        Ok(()) => Ok(()),
        Err(e) => Err(e@),
    }
}

/// What to do about a delete marker.
#[derive(Debug, Clone, Copy, PartialEq, Eq, Structural)]
pub enum VacuumAction {
    /// The object was put again after it was deleted: remove the marker.
    PurgeStale,
    /// The object should be gone: delete it, and remove the marker.
    CleanObject,
    /// The object is gone: remove the marker.
    PurgeApplied,
}

/// What to do about a delete marker, given when the object was last modified, if it is
/// there, and when it was deleted.
pub open spec fn vacuum_action(found: Option<Timestamp>, deleted_at: Timestamp) -> VacuumAction {
    match found {
        None => VacuumAction::PurgeApplied,
        Some(modified) => if modified.later_than(deleted_at) {
            VacuumAction::PurgeStale
        } else {
            VacuumAction::CleanObject
        },
    }
}

impl VacuumAction {
    /// What was done about a delete marker, in words.
    pub open spec fn text(self, key: Seq<char>) -> Seq<char> {
        match self {
            VacuumAction::PurgeStale => "vacuum: purged stale marker for "@ + key,
            VacuumAction::CleanObject => "vacuum: cleaned stale object + marker for "@ + key,
            VacuumAction::PurgeApplied => "vacuum: purged applied marker for "@ + key,
        }
    }

    /// What was done about a delete marker, in words.
    pub fn message(&self, key: &str) -> (s: String)
        ensures
            s@ == self.text(key@),
    {
        let mut s = match self {
            VacuumAction::PurgeStale => "vacuum: purged stale marker for ".to_owned(),
            VacuumAction::CleanObject => "vacuum: cleaned stale object + marker for ".to_owned(),
            VacuumAction::PurgeApplied => "vacuum: purged applied marker for ".to_owned(),
        };
        s.append(key);
        s
    }
}

/// A vacuum in progress: how many markers were purged, and how many objects cleaned.
#[derive(Debug, Clone, Copy, PartialEq, Eq, Structural)]
pub struct VacuumReport {
    pub purged: u64,
    pub cleaned: u64,
}

impl ShardedObjectStore {
    fn vacuum_allowed(&self) -> (r: Result<(), ShardError>)
        ensures
            check_view(r) == vacuum_check(self@.shards),
    {
        let shards = self.shards();
        let mut i: usize = 0;
        while i < shards.len()
            invariant
                i <= shards.len(),
                shards@ == self@.shards,
                forall|j: int| 0 <= j < i ==> !blocks_vacuum(#[trigger] shards@[j]),
            decreases shards.len() - i,
        {
            let health = shards[i].health;
            if health.is_away() || health == ShardHealth::Degraded {
                proof {
                    assert(blocks_vacuum(shards@[i as int]));
                    let k = choose|k: int|
                        0 <= k < shards@.len() && blocks_vacuum(#[trigger] shards@[k]) && forall|
                            j: int,
                        |
                            0 <= j < k ==> !blocks_vacuum(#[trigger] shards@[j]);
                    assert(k == i) by {
                        if k < i {
                            assert(!blocks_vacuum(shards@[k]));
                        } else if i < k {
                            assert(!blocks_vacuum(shards@[i as int]));
                        }
                    }
                }
                return Err(ShardError::VacuumOfflineShard { shard_id: i });
            }
            i = i + 1;
        }
        Ok(())
    }

    /// Begins a vacuum of the delete markers. Only one runs at a time, and none while
    /// a shard keeps it from running.
    pub fn vacuum_delete_markers(&mut self) -> (r: Result<VacuumReport, ShardError>)
        ensures
            match r {
                Ok(report) => !old(self)@.vacuum_in_progress && vacuum_check(old(self)@.shards)
                    is Ok && report == (VacuumReport { purged: 0, cleaned: 0 }) && final(self)@
                    == (store::ClusterState { vacuum_in_progress: true, ..old(self)@ }),
                Err(e) => final(self)@ == old(self)@ && (if old(self)@.vacuum_in_progress {
                    e@ == error::ErrorSpec::VacuumAlreadyRunning
                } else {
                    vacuum_check(old(self)@.shards) == Err::<(), error::ErrorSpec>(e@)
                }),
            },
            store::valid(old(self)@) ==> store::valid(final(self)@),
    {
        if !self.begin_vacuum() {
            return Err(ShardError::VacuumAlreadyRunning);
        }
        match self.vacuum_allowed() {
            Ok(()) => Ok(VacuumReport { purged: 0, cleaned: 0 }),
            Err(e) => {
                self.end_vacuum();
                Err(e)
            },
        }
    }
}

impl VacuumReport {
    /// Decides what to do about a marker, and counts it.
    pub fn judge(&mut self, found: Option<Timestamp>, deleted_at: &Timestamp) -> (action:
        VacuumAction)
        requires
            old(self).purged < u64::MAX,
            old(self).cleaned <= old(self).purged,
        ensures
            action == vacuum_action(found, *deleted_at),
            final(self).purged == old(self).purged + 1,
            final(self).cleaned == old(self).cleaned + (if action == VacuumAction::CleanObject {
                1int
            } else {
                0
            }),
            final(self).cleaned <= final(self).purged,
    {
        self.purged = self.purged + 1;
        match found {
            None => VacuumAction::PurgeApplied,
            Some(modified) => {
                if modified.is_after(deleted_at) {
                    VacuumAction::PurgeStale
                } else {
                    self.cleaned = self.cleaned + 1;
                    VacuumAction::CleanObject
                }
            },
        }
    }
}

// -- Laws -------------------------------------------------------------------

/// The delete marker of an object is told from all objects that are none, and gives
/// back the key of its object.
pub proof fn a_marker_gives_back_its_key(key: Seq<char>)
    ensures
        is_marker(marker_of(key)),
        text::after_prefix(marker_of(key), marker_prefix()) == Some(key),
{
    assert(marker_prefix().is_prefix_of(marker_of(key)));
    assert(marker_of(key).skip(marker_prefix().len() as int) =~= key);
}

/// Different objects have different delete markers.
pub proof fn markers_are_distinct(a: Seq<char>, b: Seq<char>)
    ensures
        marker_of(a) == marker_of(b) ==> a == b,
{
    a_marker_gives_back_its_key(a);
    a_marker_gives_back_its_key(b);
}

/// A vacuum deletes an object only if it is there and was not modified after its
/// deletion.
pub proof fn a_vacuum_deletes_no_newer_object(found: Option<Timestamp>, deleted_at: Timestamp)
    ensures
        vacuum_action(found, deleted_at) == VacuumAction::CleanObject <==> found is Some && !(
        found->0).later_than(deleted_at),
{
}

/// A vacuum runs only if every shard is healthy or syncing.
pub proof fn a_vacuum_runs_only_on_sound_shards(shards: Seq<store::ShardInfo>)
    ensures
        vacuum_check(shards) is Ok <==> forall|i: int|
            0 <= i < shards.len() ==> (#[trigger] shards[i]).health == ShardHealth::Healthy
                || shards[i].health == ShardHealth::Syncing,
{
    if vacuum_check(shards) is Ok {
        assert forall|i: int| 0 <= i < shards.len() implies (#[trigger] shards[i]).health
            == ShardHealth::Healthy || shards[i].health == ShardHealth::Syncing by {
            assert(!blocks_vacuum(shards[i]));
        }
    }
}

/// A key is that of a delete marker exactly if it is made of the key of an object.
pub proof fn every_marker_is_made_of_a_key(key: Seq<char>)
    ensures
        is_marker(key) <==> exists|of: Seq<char>| key == #[trigger] marker_of(of),
        is_marker(key) ==> key.take("__deleted__/"@.len() as int) == "__deleted__/"@,
{
    if is_marker(key) {
        let of = key.skip(marker_prefix().len() as int);
        assert(marker_of(of) =~= key);
        assert(key.take("__deleted__/"@.len() as int) =~= "__deleted__/"@);
    }
    if exists|of: Seq<char>| key == #[trigger] marker_of(of) {
        let of = choose|of: Seq<char>| key == #[trigger] marker_of(of);
        a_marker_gives_back_its_key(of);
    }
}

/// The objects that were deleted are those of which the listing shows the marker.
pub proof fn an_object_is_marked_iff_its_marker_is_listed(
    list: Seq<catalog::ObjectSpec>,
    key: Seq<char>,
)
    ensures
        marked(list).contains(key) <==> exists|i: int|
            0 <= i < list.len() && (#[trigger] list[i]).location == marker_of(key),
    decreases list.len(),
{
    if list.len() > 0 {
        let head = list.drop_last();
        let last = list.last();
        an_object_is_marked_iff_its_marker_is_listed(head, key);
        a_marker_gives_back_its_key(key);
        let before = marked(head);
        if let Some(k) = text::after_prefix(last.location, marker_prefix()) {
            assert(marker_of(k) =~= last.location);
            markers_are_distinct(k, key);
            let after = before.push(k);
            assert(after[before.len() as int] == k);
            if before.contains(key) {
                assert(after[before.index_of(key)] == key);
            }
            if after.contains(key) && k != key {
                assert(before[after.index_of(key)] == key);
            }
        }
        if exists|i: int| 0 <= i < head.len() && (#[trigger] head[i]).location == marker_of(key) {
            let i = choose|i: int|
                0 <= i < head.len() && (#[trigger] head[i]).location == marker_of(key);
            assert(list[i].location == marker_of(key));
        }
        if exists|i: int| 0 <= i < list.len() && (#[trigger] list[i]).location == marker_of(key) {
            let i = choose|i: int|
                0 <= i < list.len() && (#[trigger] list[i]).location == marker_of(key);
            if i < head.len() {
                assert(head[i].location == marker_of(key));
            }
        }
        assert(list[list.len() - 1] == last);
    }
}

/// A deletion is listed with its time exactly if its marker could be read, and each only
/// once.
pub proof fn a_deletion_is_listed_iff_its_time_is_known(
    keys: Seq<Seq<char>>,
    times: Seq<Option<Timestamp>>,
    key: Seq<char>,
    time: Timestamp,
)
    requires
        keys.len() == times.len(),
    ensures
        timed(keys, times).contains((key, time)) <==> exists|i: int|
            0 <= i < keys.len() && #[trigger] keys[i] == key && times[i] == Some(time),
        timed(keys, times).len() == times.filter(|t: Option<Timestamp>| t is Some).len(),
    decreases keys.len(),
{
    reveal(Seq::filter);
    if keys.len() > 0 {
        let k = keys.drop_last();
        let t = times.drop_last();
        let n = keys.len() - 1;
        a_deletion_is_listed_iff_its_time_is_known(k, t, key, time);
        let before = timed(k, t);
        if let Some(last) = times.last() {
            let after = before.push((keys.last(), last));
            assert(after[before.len() as int] == (keys.last(), last));
            if before.contains((key, time)) {
                assert(after[before.index_of((key, time))] == (key, time));
            }
            if after.contains((key, time)) && (keys.last(), last) != (key, time) {
                assert(before[after.index_of((key, time))] == (key, time));
            }
        }
        if exists|i: int| 0 <= i < k.len() && #[trigger] k[i] == key && t[i] == Some(time) {
            let i = choose|i: int| 0 <= i < k.len() && #[trigger] k[i] == key && t[i] == Some(time);
            assert(keys[i] == key && times[i] == Some(time));
        }
        if exists|i: int| 0 <= i < keys.len() && #[trigger] keys[i] == key && times[i] == Some(time) {
            let i = choose|i: int|
                0 <= i < keys.len() && #[trigger] keys[i] == key && times[i] == Some(time);
            if i < n {
                assert(k[i] == key && t[i] == Some(time));
            }
        }
        assert(keys[n] == keys.last() && times[n] == times.last());
    }
}

/// A vacuum takes an object for put again exactly if it was modified after its deletion,
/// and for gone exactly if it is not there.
pub proof fn a_vacuum_goes_by_when_the_object_was_modified(
    found: Option<Timestamp>,
    deleted_at: Timestamp,
)
    ensures
        vacuum_action(found, deleted_at) == VacuumAction::PurgeStale <==> (found matches Some(t)
            && t.later_than(deleted_at)),
        vacuum_action(found, deleted_at) == VacuumAction::PurgeApplied <==> found is None,
{
}

/// A vacuum that cannot run names the first shard that is offline, detached or degraded.
pub proof fn a_vacuum_names_the_shard_that_keeps_it_from_running(
    shards: Seq<store::ShardInfo>,
    first: int,
)
    requires
        shards.len() <= usize::MAX,
        0 <= first < shards.len(),
        shards[first].health == ShardHealth::Offline || shards[first].health
            == ShardHealth::Detached || shards[first].health == ShardHealth::Degraded,
        forall|i: int|
            0 <= i < first ==> (#[trigger] shards[i]).health == ShardHealth::Healthy
                || shards[i].health == ShardHealth::Syncing,
    ensures
        vacuum_check(shards) == Err::<(), error::ErrorSpec>(
            error::ErrorSpec::VacuumOfflineShard { shard_id: first as usize },
        ),
{
    assert(blocks_vacuum(shards[first]));
    assert forall|j: int| 0 <= j < first implies !blocks_vacuum(#[trigger] shards[j]) by {}
    let k = choose|k: int|
        0 <= k < shards.len() && blocks_vacuum(#[trigger] shards[k]) && forall|j: int|
            0 <= j < k ==> !blocks_vacuum(#[trigger] shards[j]);
    assert(k == first) by {
        if k < first {
            assert(!blocks_vacuum(shards[k]));
        } else if first < k {
            assert(!blocks_vacuum(shards[first]));
        }
    }
}

} // verus!
