//! Verifying objects: comparing their copies with each other and with the catalog.

use vstd::prelude::*;
use vstd::string::*;
use crate::catalog;
use crate::digest;
use crate::digest::crc32c;
use crate::error;
use crate::error::ShardError;
use crate::ids::ShardId;
use crate::store::ShardedObjectStore;
use crate::text;
use crate::writes;
use crate::writes::keep_existing;

verus! {

// -- One object, by checksum ------------------------------------------------

/// The outcome for one copy of an object.
#[derive(Debug)]
pub struct VerifyReplicaResult {
    pub shard_id: ShardId,
    /// The checksum of the copy, if it could be read.
    pub crc32c: Option<u32>,
    /// The size of the copy, if it could be read.
    pub size: Option<u64>,
    /// Whether the checksum is that of the catalog, if both are known.
    pub matches_catalog: Option<bool>,
    /// Why the copy could not be read, in words.
    pub error: Option<String>,
}

/// The outcome for one copy of an object.
pub struct ReplicaSpec {
    pub shard_id: usize,
    pub crc32c: Option<u32>,
    pub size: Option<u64>,
    pub matches_catalog: Option<bool>,
    pub error: Option<Seq<char>>,
}

impl View for VerifyReplicaResult {
    type V = ReplicaSpec;

    open spec fn view(&self) -> ReplicaSpec {
        ReplicaSpec {
            shard_id: self.shard_id,
            crc32c: self.crc32c,
            size: self.size,
            matches_catalog: self.matches_catalog,
            error: text::opt_view(self.error),
        }
    }
}

/// The outcomes for copies of an object.
pub open spec fn replica_views(v: Seq<VerifyReplicaResult>) -> Seq<ReplicaSpec> {
    Seq::new(v.len(), |i: int| v[i]@)
}

/// What reading a copy gave: its checksum and size, or an error in words.
pub type CopySpec = Result<(u32, u64), Seq<char>>;

/// What reading copies gave.
pub open spec fn copy_views(v: Seq<Result<(u32, u64), String>>) -> Seq<CopySpec> {
    Seq::new(
        v.len(),
        |i: int|
            match v[i] {
                Ok(c) => Ok(c),
                Err(e) => Err(e@),
            },
    )
}

/// What the bytes of copies give.
pub open spec fn summed(v: Seq<Result<Vec<u8>, String>>) -> Seq<CopySpec> {
    Seq::new(
        v.len(),
        |i: int|
            match v[i] {
                Ok(data) => Ok((digest::crc32c_of(data@), data@.len() as u64)),
                Err(e) => Err(e@),
            },
    )
}

/// The outcome for a copy.
pub open spec fn judged(shard: usize, read: CopySpec, catalog_crc: Option<u32>) -> ReplicaSpec {
    match read {
        Ok((crc, size)) => ReplicaSpec {
            shard_id: shard,
            crc32c: Some(crc),
            size: Some(size),
            matches_catalog: match catalog_crc {
                Some(c) => Some(c == crc),
                None => None,
            },
            error: None,
        },
        Err(e) => ReplicaSpec {
            shard_id: shard,
            crc32c: None,
            size: None,
            matches_catalog: None,
            error: Some(e),
        },
    }
}

/// The outcomes for all copies.
pub open spec fn all_judged(
    shards: Seq<usize>,
    reads: Seq<CopySpec>,
    catalog_crc: Option<u32>,
) -> Seq<ReplicaSpec> {
    Seq::new(shards.len(), |i: int| judged(shards[i], reads[i], catalog_crc))
}

/// Whether all copies that could be read have the same checksum.
pub open spec fn crcs_agree(replicas: Seq<ReplicaSpec>) -> bool {
    forall|i: int, j: int|
        0 <= i < replicas.len() && 0 <= j < replicas.len() && (#[trigger] replicas[i]).crc32c
            is Some && (#[trigger] replicas[j]).crc32c is Some ==> replicas[i].crc32c
            == replicas[j].crc32c
}

/// The outcome for an object.
#[derive(Debug)]
pub struct VerifyObjectReport {
    pub key: String,
    /// The checksum in the catalog, if it is recorded.
    pub catalog_crc: Option<u32>,
    pub replicas: Vec<VerifyReplicaResult>,
    /// Whether all copies that could be read have the same checksum.
    pub replicas_consistent: bool,
}

/// The outcome for an object.
pub struct ObjectReport {
    pub key: Seq<char>,
    pub catalog_crc: Option<u32>,
    pub replicas: Seq<ReplicaSpec>,
    pub replicas_consistent: bool,
}

impl View for VerifyObjectReport {
    type V = ObjectReport;

    open spec fn view(&self) -> ObjectReport {
        ObjectReport {
            key: self.key@,
            catalog_crc: self.catalog_crc,
            replicas: replica_views(self.replicas@),
            replicas_consistent: self.replicas_consistent,
        }
    }
}

/// The outcome for an object whose copies were read.
pub open spec fn object_report(
    key: Seq<char>,
    catalog_crc: Option<u32>,
    shards: Seq<usize>,
    reads: Seq<CopySpec>,
) -> ObjectReport {
    let replicas = all_judged(shards, reads, catalog_crc);
    ObjectReport { key, catalog_crc, replicas, replicas_consistent: crcs_agree(replicas) }
}

/// An object that is being verified.
#[derive(Debug)]
pub struct VerifyJob {
    key: String,
    catalog_crc: Option<u32>,
    shards: Vec<ShardId>,
}

impl VerifyJob {
    /// The object.
    pub closed spec fn key(&self) -> Seq<char> {
        self.key@
    }

    /// Its checksum in the catalog.
    pub closed spec fn catalog_crc(&self) -> Option<u32> {
        self.catalog_crc
    }

    /// The shards that hold it.
    pub closed spec fn holders(&self) -> Seq<usize> {
        self.shards@
    }

    /// The shards to read the object from.
    pub fn shards(&self) -> (r: &Vec<ShardId>)
        ensures
            r@ == self.holders(),
    {
        &self.shards
    }

    /// Takes what reading the copies gave.
    pub fn finish(&self, reads: &Vec<Result<Vec<u8>, String>>) -> (r: VerifyObjectReport)
        requires
            reads.len() == self.holders().len(),
        ensures
            r@ == object_report(self.key(), self.catalog_crc(), self.holders(), summed(reads@)),
    {
        let mut copies: Vec<Result<(u32, u64), String>> = Vec::new();
        let mut i: usize = 0;
        while i < reads.len()
            invariant
                i <= reads.len(),
                copies.len() == i,
                copy_views(copies@) == summed(reads@).take(i as int),
            decreases reads.len() - i,
        {
            let ghost before = copies@;
            let c: Result<(u32, u64), String> = match &reads[i] {
                Ok(data) => Ok((crc32c(data.as_slice()), data.len() as u64)),
                Err(e) => Err(e.clone()),
            };
            copies.push(c);
            assert(copy_views(copies@) =~= summed(reads@).take(i + 1)) by {
                assert forall|k: int| 0 <= k < i + 1 implies copy_views(copies@)[k] == summed(
                    reads@,
                ).take(i + 1)[k] by {
                    if k < i {
                        assert(copy_views(copies@)[k] == copy_views(before)[k]);
                        assert(copy_views(before)[k] == summed(reads@).take(i as int)[k]);
                    }
                }
            }
            i = i + 1;
        }
        assert(summed(reads@).take(i as int) =~= summed(reads@));
        assert(copies.len() == copy_views(copies@).len());
        self.finish_with(&copies)
    }

    /// Takes the checksum and size of each copy.
    pub fn finish_with(&self, reads: &Vec<Result<(u32, u64), String>>) -> (r: VerifyObjectReport)
        requires
            reads.len() == self.holders().len(),
        ensures
            r@ == object_report(
                self.key(),
                self.catalog_crc(),
                self.holders(),
                copy_views(reads@),
            ),
    {
        let ghost want = all_judged(self.shards@, copy_views(reads@), self.catalog_crc);
        let mut replicas: Vec<VerifyReplicaResult> = Vec::new();
        let mut consistent = true;
        let mut first: Option<u32> = None;
        let mut i: usize = 0;
        assert(replica_views(replicas@) =~= want.take(0));
        while i < self.shards.len()
            invariant
                i <= self.shards.len(),
                reads.len() == self.shards.len(),
                want == all_judged(self.shards@, copy_views(reads@), self.catalog_crc),
                replicas.len() == i,
                replica_views(replicas@) == want.take(i as int),
                first is None ==> forall|k: int|
                    0 <= k < i ==> (#[trigger] want[k]).crc32c is None,
                first is Some ==> exists|k: int|
                    0 <= k < i && (#[trigger] want[k]).crc32c == first,
                consistent <==> forall|k: int|
                    0 <= k < i && (#[trigger] want[k]).crc32c is Some ==> want[k].crc32c == first,
            decreases self.shards.len() - i,
        {
            let shard_id: usize = self.shards[i];
            let ghost before = replicas@;
            let ghost old_first = first;
            let one = match &reads[i] {
                Ok((crc, size)) => {
                    let matches_catalog = match self.catalog_crc {
                        Some(c) => Some(c == *crc),
                        None => None,
                    };
                    match first {
                        None => {
                            first = Some(*crc);
                        },
                        Some(f) => {
                            if f != *crc {
                                consistent = false;
                            }
                        },
                    }
                    VerifyReplicaResult {
                        shard_id,
                        crc32c: Some(*crc),
                        size: Some(*size),
                        matches_catalog,
                        error: None,
                    }
                },
                Err(e) => VerifyReplicaResult {
                    shard_id,
                    crc32c: None,
                    size: None,
                    matches_catalog: None,
                    error: Some(e.clone()),
                },
            };
            assert(one@ == want[i as int]);
            proof {
                if old_first is Some {
                    let k = choose|k: int| 0 <= k < i && (#[trigger] want[k]).crc32c == old_first;
                    assert(want[k].crc32c == first);
                } else if first is Some {
                    assert(want[i as int].crc32c == first);
                }
            }
            replicas.push(one);
            assert(replica_views(replicas@) =~= want.take(i + 1)) by {
                assert forall|k: int| 0 <= k < i + 1 implies replica_views(replicas@)[k]
                    == want.take(i + 1)[k] by {
                    if k < i {
                        assert(replica_views(replicas@)[k] == replica_views(before)[k]);
                        assert(replica_views(before)[k] == want.take(i as int)[k]);
                    }
                }
            }
            i = i + 1;
        }
        assert(want.take(i as int) =~= want);
        assert(consistent == crcs_agree(want)) by {
            if consistent {
                assert(crcs_agree(want));
            } else {
                let k = choose|k: int|
                    0 <= k < i && (#[trigger] want[k]).crc32c is Some && want[k].crc32c != first;
                assert(first is Some);
                let j = choose|j: int| 0 <= j < i && (#[trigger] want[j]).crc32c == first;
                assert(want[j].crc32c != want[k].crc32c);
            }
        }
        VerifyObjectReport {
            key: self.key.clone(),
            catalog_crc: self.catalog_crc,
            replicas,
            replicas_consistent: consistent,
        }
    }
}

impl ShardedObjectStore {
    /// Begins to verify an object.
    pub fn verify_object(&self, key: &str) -> (r: Result<VerifyJob, ShardError>)
        ensures
            match r {
                Ok(j) => self@.entries.contains_key(key@) && j.key() == key@ && j.catalog_crc()
                    == self@.entries[key@].crc32c && j.holders() == writes::existing(
                    self@.shards.len(),
                    self@.entries[key@].shards,
                ),
                Err(e) => !self@.entries.contains_key(key@) && e@ == error::ErrorSpec::NotFound(
                    key@,
                ),
            },
    {
        match self.placement(key) {
            None => Err(ShardError::NotFound(key.to_owned())),
            Some(e) => Ok(
                VerifyJob {
                    key: key.to_owned(),
                    catalog_crc: e.crc32c,
                    shards: keep_existing(self.shard_count(), e.shards.as_slice()),
                },
            ),
        }
    }
}

// -- Many objects, by checksum ----------------------------------------------

/// Whether the copies of an object differ from each other or from the catalog.
pub open spec fn is_mismatched(r: ObjectReport) -> bool {
    !r.replicas_consistent || exists|i: int|
        0 <= i < r.replicas.len() && (#[trigger] r.replicas[i]).matches_catalog == Some(false)
}

/// Whether a copy of an object could not be read.
pub open spec fn has_errors(r: ObjectReport) -> bool {
    exists|i: int| 0 <= i < r.replicas.len() && (#[trigger] r.replicas[i]).error is Some
}

/// The outcome for several objects.
pub struct AllReport {
    pub objects_checked: nat,
    pub objects_ok: nat,
    pub objects_mismatched: nat,
    pub objects_with_errors: nat,
    /// The outcomes for the objects that were not fine.
    pub details: Seq<ObjectReport>,
}

/// The outcome for several objects, some of which could not be verified. One that is
/// mismatched may have errors as well.
pub open spec fn all_report(results: Seq<Option<ObjectReport>>) -> AllReport
    decreases results.len(),
{
    if results.len() == 0 {
        AllReport {
            objects_checked: 0,
            objects_ok: 0,
            objects_mismatched: 0,
            objects_with_errors: 0,
            details: Seq::empty(),
        }
    } else {
        let head = all_report(results.drop_last());
        let (mismatched, failed) = match results.last() {
            Some(r) => (is_mismatched(r), has_errors(r)),
            None => (false, true),
        };
        AllReport {
            objects_checked: head.objects_checked + 1,
            objects_ok: if !mismatched && !failed {
                head.objects_ok + 1
            } else {
                head.objects_ok
            },
            objects_mismatched: if mismatched {
                head.objects_mismatched + 1
            } else {
                head.objects_mismatched
            },
            objects_with_errors: if failed {
                head.objects_with_errors + 1
            } else {
                head.objects_with_errors
            },
            details: match results.last() {
                Some(r) if mismatched || failed => head.details.push(r),
                _ => head.details,
            },
        }
    }
}

/// The outcome for several objects.
#[derive(Debug)]
pub struct VerifyReport {
    pub objects_checked: usize,
    /// Objects whose copies agree with each other and with the catalog.
    pub objects_ok: usize,
    /// Objects with a checksum that differs.
    pub objects_mismatched: usize,
    /// Objects with a copy that could not be read.
    pub objects_with_errors: usize,
    /// The outcomes for the objects that were not fine.
    pub details: Vec<VerifyObjectReport>,
}

/// Outcomes for objects.
pub open spec fn report_views(v: Seq<VerifyObjectReport>) -> Seq<ObjectReport> {
    Seq::new(v.len(), |i: int| v[i]@)
}

impl View for VerifyReport {
    type V = AllReport;

    open spec fn view(&self) -> AllReport {
        AllReport {
            objects_checked: self.objects_checked as nat,
            objects_ok: self.objects_ok as nat,
            objects_mismatched: self.objects_mismatched as nat,
            objects_with_errors: self.objects_with_errors as nat,
            details: report_views(self.details@),
        }
    }
}

/// Outcomes for objects, some of which could not be verified.
pub open spec fn result_views(v: Seq<Result<VerifyObjectReport, ShardError>>) -> Seq<
    Option<ObjectReport>,
> {
    Seq::new(
        v.len(),
        |i: int|
            match v[i] {
                Ok(r) => Some(r@),
                Err(_) => None,
            },
    )
}

impl VerifyObjectReport {
    /// Whether the copies differ from each other or from the catalog.
    pub fn is_mismatched(&self) -> (r: bool)
        ensures
            r == is_mismatched(self@),
    {
        if !self.replicas_consistent {
            return true;
        }
        let ghost all = replica_views(self.replicas@);
        let mut i: usize = 0;
        while i < self.replicas.len()
            invariant
                i <= self.replicas.len(),
                all == replica_views(self.replicas@),
                forall|k: int| 0 <= k < i ==> (#[trigger] all[k]).matches_catalog != Some(false),
            decreases self.replicas.len() - i,
        {
            assert(all[i as int] == self.replicas@[i as int]@);
            if let Some(m) = self.replicas[i].matches_catalog {
                if !m {
                    assert(all[i as int].matches_catalog == Some(false));
                    return true;
                }
            }
            i = i + 1;
        }
        false
    }

    /// Whether a copy could not be read.
    pub fn has_errors(&self) -> (r: bool)
        ensures
            r == has_errors(self@),
    {
        let ghost all = replica_views(self.replicas@);
        let mut i: usize = 0;
        while i < self.replicas.len()
            invariant
                i <= self.replicas.len(),
                all == replica_views(self.replicas@),
                forall|k: int| 0 <= k < i ==> (#[trigger] all[k]).error is None,
            decreases self.replicas.len() - i,
        {
            assert(all[i as int] == self.replicas@[i as int]@);
            if self.replicas[i].error.is_some() {
                assert(all[i as int].error is Some);
                return true;
            }
            i = i + 1;
        }
        false
    }
}

impl ShardedObjectStore {
    /// The objects to verify: those whose key starts with a prefix, or all of them.
    pub fn verify_keys(&self, prefix: Option<&str>) -> (r: Vec<String>)
        ensures
            text::views(r@) == catalog::keys_with_prefix(
                self@.entries,
                catalog::str_view(prefix),
            ),
    {
        self.catalog().keys(prefix)
    }

    /// Sums up the outcomes for several objects.
    pub fn verify_all(results: Vec<Result<VerifyObjectReport, ShardError>>) -> (r: VerifyReport)
        ensures
            r@ == all_report(result_views(results@)),
    {
        let ghost all = result_views(results@);
        let mut report = VerifyReport {
            objects_checked: 0,
            objects_ok: 0,
            objects_mismatched: 0,
            objects_with_errors: 0,
            details: Vec::new(),
        };
        proof {
            assert(all.take(0) =~= Seq::<Option<ObjectReport>>::empty());
            assert(report@.details =~= Seq::<ObjectReport>::empty());
        }
        let mut rest = results;
        let n: usize = rest.len();
        let mut turned: Vec<Result<VerifyObjectReport, ShardError>> = Vec::new();
        let ghost given = rest@;
        while rest.len() > 0
            invariant
                rest@ == given.take(rest@.len() as int),
                rest@.len() + turned@.len() == given.len(),
                forall|k: int|
                    0 <= k < turned@.len() ==> #[trigger] turned@[k] == given[given.len() - 1 - k],
            decreases rest.len(),
        {
            if let Some(one) = rest.pop() {
                turned.push(one);
            }
        }
        let mut i: usize = 0;
        while i < n
            invariant
                i <= n,
                n == given.len(),
                all == result_views(given),
                turned@.len() == n - i,
                forall|k: int|
                    0 <= k < turned@.len() ==> #[trigger] turned@[k] == given[given.len() - 1 - k],
                report@ == all_report(all.take(i as int)),
                report.objects_checked == i,
                report.objects_ok <= i,
                report.objects_mismatched <= i,
                report.objects_with_errors <= i,
            decreases n - i,
        {
            proof {
                assert(all.take(i + 1).drop_last() =~= all.take(i as int));
                assert(all.take(i + 1).last() == all[i as int]);
                assert(turned@[n - i - 1] == given[i as int]);
            }
            if let Some(one) = turned.pop() {
                assert(one == given[i as int]);
                report.objects_checked = report.objects_checked + 1;
                match one {
                    Ok(r) => {
                        let ghost before = report.details@;
                        let mismatched = r.is_mismatched();
                        let failed = r.has_errors();
                        if mismatched {
                            report.objects_mismatched = report.objects_mismatched + 1;
                        }
                        if failed {
                            report.objects_with_errors = report.objects_with_errors + 1;
                        }
                        if mismatched || failed {
                            report.details.push(r);
                            assert(report_views(report.details@) =~= report_views(before).push(r@));
                        } else {
                            report.objects_ok = report.objects_ok + 1;
                        }
                    },
                    Err(_) => {
                        report.objects_with_errors = report.objects_with_errors + 1;
                    },
                }
            }
            i = i + 1;
        }
        assert(all.take(i as int) =~= all);
        report
    }
}

// -- Laws -------------------------------------------------------------------

/// An object is fine exactly if all its copies were read and all have the checksum of
/// the first of them, which is that of the catalog if there is one.
pub proof fn an_object_is_fine_iff_its_copies_are_right(
    key: Seq<char>,
    catalog_crc: Option<u32>,
    shards: Seq<usize>,
    reads: Seq<CopySpec>,
)
    requires
        shards.len() == reads.len(),
        reads.len() > 0,
    ensures
        ({
            let r = object_report(key, catalog_crc, shards, reads);
            !is_mismatched(r) && !has_errors(r)
        }) <==> (forall|i: int|
            0 <= i < reads.len() ==> ((#[trigger] reads[i]) matches Ok(copy) && reads[0] matches Ok(
                first,
            ) && copy.0 == first.0 && (catalog_crc matches Some(crc) ==> copy.0 == crc))),
{
    let r = object_report(key, catalog_crc, shards, reads);
    let all = r.replicas;
    assert(forall|i: int|
        0 <= i < all.len() ==> #[trigger] all[i] == judged(shards[i], reads[i], catalog_crc));
    if !is_mismatched(r) && !has_errors(r) {
        assert forall|i: int| 0 <= i < reads.len() implies ((#[trigger] reads[i]) matches Ok(copy)
            && reads[0] matches Ok(first) && copy.0 == first.0 && (catalog_crc matches Some(crc)
            ==> copy.0 == crc)) by {
            assert(all[i].error is None);
            assert(all[0].error is None);
            assert(all[i].crc32c == all[0].crc32c);
            assert(all[i].matches_catalog != Some(false));
        }
    }
    if forall|i: int|
        0 <= i < reads.len() ==> ((#[trigger] reads[i]) matches Ok(copy) && reads[0] matches Ok(
            first,
        ) && copy.0 == first.0 && (catalog_crc matches Some(crc) ==> copy.0 == crc)) {
        assert forall|i: int| 0 <= i < all.len() implies (#[trigger] all[i]).error is None
            && all[i].matches_catalog != Some(false) && all[i].crc32c == all[0].crc32c by {
            assert(reads[i] is Ok);
        }
        assert(crcs_agree(all));
    }
}

/// Every object that is checked is counted: as fine, or else as mismatched or with
/// errors, or as both, but never as fine and as one of these.
pub proof fn every_verified_object_is_counted(results: Seq<Option<ObjectReport>>)
    ensures
        ({
            let r = all_report(results);
            &&& r.objects_checked == results.len()
            &&& r.objects_ok + r.objects_mismatched + r.objects_with_errors >= results.len()
            &&& r.objects_ok + r.objects_mismatched <= results.len()
            &&& r.objects_ok + r.objects_with_errors <= results.len()
        }),
    decreases results.len(),
{
    if results.len() > 0 {
        every_verified_object_is_counted(results.drop_last());
    }
}

/// Each copy is reported, with its shard, as it was read: with its checksum and size and
/// whether the checksum is that of the catalog, or with the error.
pub proof fn each_copy_is_reported_as_it_was_read(
    key: Seq<char>,
    catalog_crc: Option<u32>,
    shards: Seq<usize>,
    reads: Seq<CopySpec>,
    i: int,
)
    requires
        shards.len() == reads.len(),
        0 <= i < reads.len(),
    ensures
        ({
            let r = object_report(key, catalog_crc, shards, reads);
            let one = r.replicas[i];
            &&& r.key == key && r.catalog_crc == catalog_crc && r.replicas.len() == reads.len()
            &&& one.shard_id == shards[i]
            &&& one.error is Some <==> reads[i] is Err
            &&& reads[i] matches Ok((crc, size)) ==> one.crc32c == Some(crc) && one.size == Some(
                size,
            ) && (one.matches_catalog == Some(true) <==> catalog_crc == Some(crc)) && (
            one.matches_catalog is None <==> catalog_crc is None)
            &&& reads[i] matches Err(e) ==> one.error == Some(e) && one.crc32c is None
                && one.size is None && one.matches_catalog is None
        }),
{
}

/// An object is mismatched exactly if two of the copies that could be read have
/// different checksums, or one of them not that of the catalog. It has errors exactly if
/// a copy could not be read. The one says nothing about the other.
pub proof fn an_object_is_mismatched_iff_checksums_differ(
    key: Seq<char>,
    catalog_crc: Option<u32>,
    shards: Seq<usize>,
    reads: Seq<CopySpec>,
)
    requires
        shards.len() == reads.len(),
    ensures
        ({
            let r = object_report(key, catalog_crc, shards, reads);
            let differ = |i: int, j: int|
                0 <= i < reads.len() && 0 <= j < reads.len() && (reads[i] matches Ok(a)
                    && reads[j] matches Ok(b) && (a.0 != b.0 || (catalog_crc matches Some(crc)
                    && crc != a.0)));
            &&& is_mismatched(r) <==> exists|i: int, j: int| #[trigger] differ(i, j)
            &&& has_errors(r) <==> exists|i: int| 0 <= i < reads.len() && (#[trigger] reads[i])
                is Err
        }),
{
    let r = object_report(key, catalog_crc, shards, reads);
    let all = r.replicas;
    let differ = |i: int, j: int|
        0 <= i < reads.len() && 0 <= j < reads.len() && (reads[i] matches Ok(a) && reads[j] matches Ok(
            b,
        ) && (a.0 != b.0 || (catalog_crc matches Some(crc) && crc != a.0)));
    assert forall|i: int| 0 <= i < all.len() implies #[trigger] all[i] == judged(
        shards[i],
        reads[i],
        catalog_crc,
    ) by {}
    if is_mismatched(r) {
        if !r.replicas_consistent {
            let (i, j) = choose|i: int, j: int|
                0 <= i < all.len() && 0 <= j < all.len() && (#[trigger] all[i]).crc32c is Some && (
                #[trigger] all[j]).crc32c is Some && all[i].crc32c != all[j].crc32c;
            assert(differ(i, j));
        } else {
            let i = choose|i: int|
                0 <= i < all.len() && (#[trigger] all[i]).matches_catalog == Some(false);
            assert(differ(i, i));
        }
    }
    if exists|i: int, j: int| #[trigger] differ(i, j) {
        let (i, j) = choose|i: int, j: int| #[trigger] differ(i, j);
        assert(all[i] == judged(shards[i], reads[i], catalog_crc));
        assert(all[j] == judged(shards[j], reads[j], catalog_crc));
        if all[i].crc32c == all[j].crc32c {
            assert(all[i].matches_catalog == Some(false));
        }
    }
    if has_errors(r) {
        let i = choose|i: int| 0 <= i < all.len() && (#[trigger] all[i]).error is Some;
        assert(reads[i] is Err);
    }
    if exists|i: int| 0 <= i < reads.len() && (#[trigger] reads[i]) is Err {
        let i = choose|i: int| 0 <= i < reads.len() && (#[trigger] reads[i]) is Err;
        assert(all[i].error is Some);
    }
}

/// Of the objects that were checked, those that are fine, those that are mismatched and
/// those with errors are counted, an object that could not be verified at all among the
/// last. The details are those of all that were verified and are not fine.
pub proof fn verified_objects_are_counted_by_what_they_are(results: Seq<Option<ObjectReport>>)
    ensures
        ({
            let r = all_report(results);
            &&& r.objects_ok == results.filter(
                |o: Option<ObjectReport>| o matches Some(x) && !is_mismatched(x) && !has_errors(x),
            ).len()
            &&& r.objects_mismatched == results.filter(
                |o: Option<ObjectReport>| o matches Some(x) && is_mismatched(x),
            ).len()
            &&& r.objects_with_errors == results.filter(
                |o: Option<ObjectReport>| o matches Some(x) ==> has_errors(x),
            ).len()
            &&& r.details.len() == results.filter(
                |o: Option<ObjectReport>| o matches Some(x) && (is_mismatched(x) || has_errors(x)),
            ).len()
            &&& forall|i: int|
                0 <= i < r.details.len() ==> results.contains(Some(#[trigger] r.details[i]))
        }),
    decreases results.len(),
{
    reveal(Seq::filter);
    if results.len() > 0 {
        let head = results.drop_last();
        verified_objects_are_counted_by_what_they_are(head);
        let before = all_report(head).details;
        let after = all_report(results).details;
        assert(results[results.len() - 1] == results.last());
        assert forall|i: int| 0 <= i < after.len() implies results.contains(
            Some(#[trigger] after[i]),
        ) by {
            if i < before.len() {
                assert(after[i] == before[i]);
                let k = head.index_of(Some(before[i]));
                assert(results[k] == Some(after[i]));
            } else {
                assert(results.contains(results[results.len() - 1]));
            }
        }
    }
}

} // verus!
