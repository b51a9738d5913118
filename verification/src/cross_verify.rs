//! Verifying objects across shards: comparing the MD5 digests of their copies.

use vstd::prelude::*;
use vstd::string::*;
use crate::catalog;
use crate::digest;
use crate::digest::md5_hex;
use crate::error;
use crate::error::ShardError;
use crate::ids::ShardId;
use crate::placement;
use crate::store;
use crate::store::ShardedObjectStore;
use crate::text;
use crate::text::{chars_of, str_eq, string_of};
use crate::time::Timestamp;
use crate::writes;
use crate::writes::keep_existing;

verus! {

// -- The digest of one copy -------------------------------------------------

/// The digest of a copy of an object.
#[derive(Debug)]
pub struct ShardObjectDigest {
    pub shard_id: ShardId,
    /// The MD5 digest of the body, in hexadecimal.
    pub md5_hex: String,
    pub size: u64,
    pub last_modified: Timestamp,
}

/// The digest of a copy of an object.
pub struct DigestSpec {
    pub shard_id: usize,
    pub md5_hex: Seq<char>,
    pub size: u64,
    pub last_modified: Timestamp,
}

impl View for ShardObjectDigest {
    type V = DigestSpec;

    open spec fn view(&self) -> DigestSpec {
        DigestSpec {
            shard_id: self.shard_id,
            md5_hex: self.md5_hex@,
            size: self.size,
            last_modified: self.last_modified,
        }
    }
}

/// A tag without the marks of a weak one.
pub open spec fn strong(tag: Seq<char>) -> Seq<char>
    decreases tag.len(),
{
    if tag.len() >= 2 && tag[0] == 'W' && tag[1] == '/' {
        strong(tag.skip(2))
    } else {
        tag
    }
}

/// A text without the quotes that lead it.
pub open spec fn without_lead_quotes(s: Seq<char>) -> Seq<char> {
    s.skip(text::span(s, |c: char| c != '"') as int)
}

/// A text without the quotes that end it.
pub open spec fn without_end_quotes(s: Seq<char>) -> Seq<char>
    decreases s.len(),
{
    if s.len() > 0 && s.last() == '"' {
        without_end_quotes(s.drop_last())
    } else {
        s
    }
}

/// Whether a text has the form of an MD5 digest in hexadecimal.
pub open spec fn is_md5(s: Seq<char>) -> bool {
    s.len() == 32 && forall|i: int| 0 <= i < s.len() ==> digest::is_hex(#[trigger] s[i])
}

/// The digest that a tag holds, if it is a plain MD5 digest. The tag of an object that
/// was uploaded in parts is none.
pub open spec fn tag_digest(tag: Seq<char>) -> Option<Seq<char>> {
    let hex = without_end_quotes(without_lead_quotes(strong(tag)));
    if is_md5(hex) {
        Some(hex)
    } else {
        None
    }
}

fn hex_char(c: char) -> (r: bool)
    ensures
        r == digest::is_hex(c),
{
    (c >= '0' && c <= '9') || (c >= 'a' && c <= 'f') || (c >= 'A' && c <= 'F')
}

/// The digest that a tag holds, if it is a plain MD5 digest.
pub fn digest_of_tag(tag: &str) -> (r: Option<String>)
    ensures
        text::opt_view(r) == tag_digest(tag@),
{
    let v = chars_of(tag);
    let mut start: usize = 0;
    assert(v@.skip(0) =~= v@);
    while v.len() - start >= 2 && v[start] == 'W' && v[start + 1] == '/'
        invariant
            start <= v.len(),
            strong(v@.skip(start as int)) == strong(v@),
        decreases v.len() - start,
    {
        assert(v@.skip(start as int).skip(2) =~= v@.skip(start + 2));
        start = start + 2;
    }
    let ghost plain = v@.skip(start as int);
    assert(plain == strong(v@));
    let ghost stop = |c: char| c != '"';
    let mut lead: usize = start;
    while lead < v.len() && v[lead] == '"'
        invariant
            start <= lead <= v.len(),
            plain == v@.skip(start as int),
            stop == (|c: char| c != '"'),
            forall|k: int| 0 <= k < lead - start ==> !stop(#[trigger] plain[k]),
        decreases v.len() - lead,
    {
        assert(plain[lead - start] == v@[lead as int]);
        lead = lead + 1;
    }
    proof {
        if lead < v.len() {
            assert(plain[lead - start] == v@[lead as int]);
        }
        text::lemma_span(plain, stop, lead - start);
        assert(plain.skip(lead - start) =~= v@.skip(lead as int));
    }
    let ghost rest = v@.skip(lead as int);
    assert(rest == without_lead_quotes(strong(v@)));
    let mut end: usize = v.len();
    assert(v@.subrange(lead as int, end as int) =~= rest);
    while end > lead && v[end - 1] == '"'
        invariant
            lead <= end <= v.len(),
            without_end_quotes(v@.subrange(lead as int, end as int)) == without_end_quotes(rest),
        decreases end - lead,
    {
        assert(v@.subrange(lead as int, end as int).drop_last() =~= v@.subrange(
            lead as int,
            end - 1,
        ));
        end = end - 1;
    }
    let ghost hex = v@.subrange(lead as int, end as int);
    if end - lead != 32 {
        return None;
    }
    let mut i: usize = lead;
    while i < end
        invariant
            lead <= i <= end <= v.len(),
            end - lead == 32,
            hex == v@.subrange(lead as int, end as int),
            hex == without_end_quotes(rest),
            rest == without_lead_quotes(strong(v@)),
            v@ == tag@,
            forall|k: int| 0 <= k < i - lead ==> digest::is_hex(#[trigger] hex[k]),
        decreases end - i,
    {
        assert(hex[i - lead] == v@[i as int]);
        if !hex_char(v[i]) {
            return None;
        }
        i = i + 1;
    }
    Some(string_of(&v, lead, end))
}

/// What is known of an object on a shard.
#[derive(Debug)]
pub struct HeadInfo {
    pub e_tag: Option<String>,
    pub size: u64,
    pub last_modified: Timestamp,
}

/// What reading an object on a shard gave.
#[derive(Debug)]
pub enum BodyRead {
    Read { data: Vec<u8>, last_modified: Timestamp },
    /// It could not be opened, with the error in words.
    GetFailed(String),
    /// It could not be read, with the error in words.
    ReadFailed(String),
}

/// The digest of a copy, or the shard and the error in words.
pub type DigestResult = Result<DigestSpec, (usize, Seq<char>)>;

/// The digest of a copy, in the terms of the model.
pub open spec fn digest_view(r: Result<ShardObjectDigest, (usize, String)>) -> DigestResult {
    match r {
        Ok(d) => Ok(d@),
        Err(e) => Err((e.0, e.1@)),
    }
}

/// The digest of a copy, given what a head of it gave, or nothing if the body has to be
/// read.
pub open spec fn head_digest(shard: usize, head: Result<HeadInfo, String>) -> Option<DigestResult> {
    match head {
        Err(e) => Some(Err((shard, "head failed: "@ + e@))),
        Ok(h) => match h.e_tag {
            None => None,
            Some(tag) => match tag_digest(tag@) {
                None => None,
                Some(hex) => Some(
                    Ok(
                        DigestSpec {
                            shard_id: shard,
                            md5_hex: hex,
                            size: h.size,
                            last_modified: h.last_modified,
                        },
                    ),
                ),
            },
        },
    }
}

/// The digest of a copy, given its body.
pub open spec fn body_digest(shard: usize, body: BodyRead) -> DigestResult {
    match body {
        BodyRead::Read { data, last_modified } => Ok(
            DigestSpec {
                shard_id: shard,
                md5_hex: digest::md5_hex_of(data@),
                size: data@.len() as u64,
                last_modified,
            },
        ),
        BodyRead::GetFailed(e) => Err((shard, "get failed: "@ + e@)),
        BodyRead::ReadFailed(e) => Err((shard, "body read failed: "@ + e@)),
    }
}

fn prefixed(prefix: &str, message: &str) -> (s: String)
    ensures
        s@ == prefix@ + message@,
{
    let mut s = prefix.to_owned();
    s.append(message);
    s
}

impl ShardedObjectStore {
    /// The digest of a copy, given what a head of it gave, or nothing if the body has
    /// to be read.
    pub fn get_shard_md5(shard_id: ShardId, head: &Result<HeadInfo, String>) -> (r: Option<
        Result<ShardObjectDigest, (ShardId, String)>,
    >)
        ensures
            (match r {
                Some(d) => Some(digest_view(d)),
                None => None,
            }) == head_digest(shard_id, *head),
    {
        match head {
            Err(e) => Some(Err((shard_id, prefixed("head failed: ", e.as_str())))),
            Ok(h) => match &h.e_tag {
                None => None,
                Some(tag) => match digest_of_tag(tag.as_str()) {
                    None => None,
                    Some(hex) => Some(
                        Ok(
                            ShardObjectDigest {
                                shard_id,
                                md5_hex: hex,
                                size: h.size,
                                last_modified: h.last_modified,
                            },
                        ),
                    ),
                },
            },
        }
    }

    /// The digest of a copy, given its body.
    pub fn get_body_md5(shard_id: ShardId, body: &BodyRead) -> (r: Result<
        ShardObjectDigest,
        (ShardId, String),
    >)
        ensures
            digest_view(r) == body_digest(shard_id, *body),
    {
        match body {
            BodyRead::Read { data, last_modified } => Ok(
                ShardObjectDigest {
                    shard_id,
                    md5_hex: md5_hex(data.as_slice()),
                    size: data.len() as u64,
                    last_modified: *last_modified,
                },
            ),
            BodyRead::GetFailed(e) => Err((shard_id, prefixed("get failed: ", e.as_str()))),
            BodyRead::ReadFailed(e) => Err((shard_id, prefixed("body read failed: ", e.as_str()))),
        }
    }
}

// -- One object -------------------------------------------------------------

/// The outcome for an object.
#[derive(Debug)]
pub struct CrossVerifyReport {
    pub key: String,
    /// The checksum in the catalog, if it is recorded.
    pub catalog_crc: Option<u32>,
    /// The digests of the copies that could be read.
    pub shards: Vec<ShardObjectDigest>,
    /// Whether all copies that could be read have the same digest.
    pub consistent: bool,
    /// The errors of the copies that could not be read.
    pub errors: Vec<(ShardId, String)>,
}

/// The outcome for an object.
pub struct CrossReport {
    pub key: Seq<char>,
    pub catalog_crc: Option<u32>,
    pub shards: Seq<DigestSpec>,
    pub consistent: bool,
    pub errors: Seq<(usize, Seq<char>)>,
}

/// Digests of copies.
pub open spec fn digest_views(v: Seq<ShardObjectDigest>) -> Seq<DigestSpec> {
    Seq::new(v.len(), |i: int| v[i]@)
}

/// Errors of shards.
pub open spec fn error_views(v: Seq<(usize, String)>) -> Seq<(usize, Seq<char>)> {
    Seq::new(v.len(), |i: int| (v[i].0, v[i].1@))
}

impl View for CrossVerifyReport {
    type V = CrossReport;

    open spec fn view(&self) -> CrossReport {
        CrossReport {
            key: self.key@,
            catalog_crc: self.catalog_crc,
            shards: digest_views(self.shards@),
            consistent: self.consistent,
            errors: error_views(self.errors@),
        }
    }
}

/// The digests of the copies that could be read.
pub open spec fn digests(results: Seq<DigestResult>) -> Seq<DigestSpec>
    decreases results.len(),
{
    if results.len() == 0 {
        Seq::empty()
    } else {
        let head = digests(results.drop_last());
        match results.last() {
            Ok(d) => head.push(d),
            Err(_) => head,
        }
    }
}

/// The errors of the copies that could not be read.
pub open spec fn digest_errors(results: Seq<DigestResult>) -> Seq<(usize, Seq<char>)>
    decreases results.len(),
{
    if results.len() == 0 {
        Seq::empty()
    } else {
        let head = digest_errors(results.drop_last());
        match results.last() {
            Ok(_) => head,
            Err(e) => head.push(e),
        }
    }
}

/// Whether digests are all the same.
pub open spec fn digests_agree(d: Seq<DigestSpec>) -> bool {
    forall|i: int, j: int|
        0 <= i < d.len() && 0 <= j < d.len() ==> (#[trigger] d[i]).md5_hex == (
        #[trigger] d[j]).md5_hex
}

/// The outcome for an object whose copies were digested.
pub open spec fn cross_report(
    key: Seq<char>,
    catalog_crc: Option<u32>,
    results: Seq<DigestResult>,
) -> CrossReport {
    CrossReport {
        key,
        catalog_crc,
        shards: digests(results),
        consistent: digests_agree(digests(results)),
        errors: digest_errors(results),
    }
}

/// Digests of copies, some of which could not be read.
pub open spec fn digest_results(v: Seq<Result<ShardObjectDigest, (usize, String)>>) -> Seq<
    DigestResult,
> {
    Seq::new(v.len(), |i: int| digest_view(v[i]))
}

/// An object that is being verified across shards.
#[derive(Debug)]
pub struct CrossVerifyJob {
    key: String,
    catalog_crc: Option<u32>,
    shards: Vec<ShardId>,
}

/// Whether an object can be verified across shards: it has at least two copies on
/// shards that exist.
pub open spec fn cross_check(c: store::ClusterState, key: Seq<char>) -> Result<
    Seq<usize>,
    error::ErrorSpec,
> {
    if !c.entries.contains_key(key) {
        Err(error::ErrorSpec::NotFound(key))
    } else {
        let held = writes::existing(c.shards.len(), c.entries[key].shards);
        if held.len() < 2 {
            Err(
                error::ErrorSpec::AllReplicasFailed {
                    path: key,
                    errors: seq!["cross-verify requires at least 2 replicas"@],
                },
            )
        } else {
            Ok(held)
        }
    }
}

impl CrossVerifyJob {
    /// The object.
    pub closed spec fn key(&self) -> Seq<char> {
        self.key@
    }

    /// Its checksum in the catalog.
    pub closed spec fn catalog_crc(&self) -> Option<u32> {
        self.catalog_crc
    }

    /// The shards that hold it.
    pub closed spec fn holders(&self) -> Seq<usize> {
        self.shards@
    }

    /// The shards whose copies to digest.
    pub fn shards(&self) -> (r: &Vec<ShardId>)
        ensures
            r@ == self.holders(),
    {
        &self.shards
    }

    /// Takes the digests of the copies.
    pub fn finish(&self, results: Vec<Result<ShardObjectDigest, (ShardId, String)>>) -> (r:
        CrossVerifyReport)
        ensures
            r@ == cross_report(self.key(), self.catalog_crc(), digest_results(results@)),
    {
        let ghost all = digest_results(results@);
        let mut shards: Vec<ShardObjectDigest> = Vec::new();
        let mut errors: Vec<(ShardId, String)> = Vec::new();
        let mut i: usize = 0;
        assert(digest_views(shards@) =~= digests(all.take(0)));
        assert(error_views(errors@) =~= digest_errors(all.take(0)));
        while i < results.len()
            invariant
                i <= results.len(),
                all == digest_results(results@),
                digest_views(shards@) == digests(all.take(i as int)),
                error_views(errors@) == digest_errors(all.take(i as int)),
            decreases results.len() - i,
        {
            proof {
                assert(all.take(i + 1).drop_last() =~= all.take(i as int));
                assert(all.take(i + 1).last() == digest_view(results@[i as int]));
            }
            match &results[i] {
                Ok(d) => {
                    let ghost before = shards@;
                    let one = ShardObjectDigest {
                        shard_id: d.shard_id,
                        md5_hex: d.md5_hex.clone(),
                        size: d.size,
                        last_modified: d.last_modified,
                    };
                    shards.push(one);
                    assert(digest_views(shards@) =~= digest_views(before).push(one@));
                },
                Err(e) => {
                    let ghost before = errors@;
                    errors.push((e.0, e.1.clone()));
                    assert(error_views(errors@) =~= error_views(before).push((e.0, e.1@)));
                },
            }
            i = i + 1;
        }
        assert(all.take(i as int) =~= all);
        let ghost d = digest_views(shards@);
        let mut consistent = true;
        let mut k: usize = 1;
        while k < shards.len()
            invariant
                1 <= k,
                k <= shards.len() || shards.len() == 0,
                d == digest_views(shards@),
                consistent <==> forall|j: int|
                    0 <= j < k && j < d.len() ==> (#[trigger] d[j]).md5_hex == d[0].md5_hex,
            decreases shards.len() - k,
        {
            assert(d[k as int].md5_hex == shards@[k as int].md5_hex@);
            assert(d[0].md5_hex == shards@[0].md5_hex@);
            if !str_eq(shards[k].md5_hex.as_str(), shards[0].md5_hex.as_str()) {
                consistent = false;
            }
            k = k + 1;
        }
        assert(consistent == digests_agree(d)) by {
            if !consistent {
                let j = choose|j: int|
                    0 <= j < k && j < d.len() && (#[trigger] d[j]).md5_hex != d[0].md5_hex;
                assert(d[j].md5_hex != d[0].md5_hex);
            } else {
                assert forall|x: int, y: int| 0 <= x < d.len() && 0 <= y < d.len() implies (
                #[trigger] d[x]).md5_hex == (#[trigger] d[y]).md5_hex by {
                    assert(d[x].md5_hex == d[0].md5_hex);
                    assert(d[y].md5_hex == d[0].md5_hex);
                }
            }
        }
        CrossVerifyReport {
            key: self.key.clone(),
            catalog_crc: self.catalog_crc,
            shards,
            consistent,
            errors,
        }
    }
}

impl ShardedObjectStore {
    /// Begins to verify an object across shards.
    pub fn cross_verify_object(&self, key: &str) -> (r: Result<CrossVerifyJob, ShardError>)
        ensures
            match r {
                Ok(j) => j.key() == key@ && cross_check(self@, key@) == Ok::<
                    Seq<usize>,
                    error::ErrorSpec,
                >(j.holders()) && j.catalog_crc() == self@.entries[key@].crc32c,
                Err(e) => cross_check(self@, key@) == Err::<Seq<usize>, error::ErrorSpec>(e@),
            },
    {
        match self.placement(key) {
            None => Err(ShardError::NotFound(key.to_owned())),
            Some(e) => {
                let shards = keep_existing(self.shard_count(), e.shards.as_slice());
                if shards.len() < 2 {
                    let mut errors: Vec<String> = Vec::new();
                    errors.push("cross-verify requires at least 2 replicas".to_owned());
                    assert(text::views(errors@) =~= seq![
                        "cross-verify requires at least 2 replicas"@,
                    ]);
                    return Err(ShardError::AllReplicasFailed { path: key.to_owned(), errors });
                }
                Ok(CrossVerifyJob { key: key.to_owned(), catalog_crc: e.crc32c, shards })
            },
        }
    }
}

// -- Many objects -----------------------------------------------------------

/// The outcome for several objects.
#[derive(Debug)]
pub struct CrossVerifyAllReport {
    pub objects_checked: u64,
    /// Objects whose copies all have the same digest.
    pub objects_ok: u64,
    /// Objects with copies whose digests differ.
    pub objects_mismatched: u64,
    /// Objects with a copy that could not be read.
    pub objects_with_errors: u64,
    /// Objects that were left out because they have one copy.
    pub objects_skipped_single_replica: u64,
    /// The outcomes for the objects that were not fine.
    pub details: Vec<CrossVerifyReport>,
}

/// The outcome for several objects.
pub struct CrossAllReport {
    pub objects_checked: nat,
    pub objects_ok: nat,
    pub objects_mismatched: nat,
    pub objects_with_errors: nat,
    pub objects_skipped_single_replica: nat,
    pub details: Seq<CrossReport>,
}

/// Outcomes for objects.
pub open spec fn cross_views(v: Seq<CrossVerifyReport>) -> Seq<CrossReport> {
    Seq::new(v.len(), |i: int| v[i]@)
}

impl View for CrossVerifyAllReport {
    type V = CrossAllReport;

    open spec fn view(&self) -> CrossAllReport {
        CrossAllReport {
            objects_checked: self.objects_checked as nat,
            objects_ok: self.objects_ok as nat,
            objects_mismatched: self.objects_mismatched as nat,
            objects_with_errors: self.objects_with_errors as nat,
            objects_skipped_single_replica: self.objects_skipped_single_replica as nat,
            details: cross_views(self.details@),
        }
    }
}

/// Outcomes for objects, some of which could not be verified.
pub open spec fn cross_results(v: Seq<Result<CrossVerifyReport, ShardError>>) -> Seq<
    Option<CrossReport>,
> {
    Seq::new(
        v.len(),
        |i: int|
            match v[i] {
                Ok(r) => Some(r@),
                Err(_) => None,
            },
    )
}

/// The outcome for several objects: one whose copies differ is mismatched, one with a
/// copy that could not be read has errors, and one may be both.
pub open spec fn cross_all(results: Seq<Option<CrossReport>>, skipped: nat) -> CrossAllReport
    decreases results.len(),
{
    if results.len() == 0 {
        CrossAllReport {
            objects_checked: 0,
            objects_ok: 0,
            objects_mismatched: 0,
            objects_with_errors: 0,
            objects_skipped_single_replica: skipped,
            details: Seq::empty(),
        }
    } else {
        let head = cross_all(results.drop_last(), skipped);
        let counted = CrossAllReport { objects_checked: head.objects_checked + 1, ..head };
        match results.last() {
            None => CrossAllReport { objects_with_errors: head.objects_with_errors + 1, ..counted },
            Some(r) => if r.consistent && r.errors.len() == 0 {
                CrossAllReport { objects_ok: head.objects_ok + 1, ..counted }
            } else {
                CrossAllReport {
                    objects_mismatched: if r.consistent {
                        head.objects_mismatched
                    } else {
                        head.objects_mismatched + 1
                    },
                    objects_with_errors: if r.errors.len() == 0 {
                        head.objects_with_errors
                    } else {
                        head.objects_with_errors + 1
                    },
                    details: head.details.push(r),
                    ..counted
                }
            },
        }
    }
}

/// Whether the catalog has an object on at least two shards.
pub open spec fn has_several(entries: catalog::Entries) -> spec_fn(Seq<char>) -> bool {
    |k: Seq<char>| entries[k].shards.len() >= 2
}

fn copy_report(r: &CrossVerifyReport) -> (c: CrossVerifyReport)
    ensures
        c@ == r@,
{
    let mut shards: Vec<ShardObjectDigest> = Vec::new();
    let mut i: usize = 0;
    while i < r.shards.len()
        invariant
            i <= r.shards.len(),
            shards.len() == i,
            digest_views(shards@) == digest_views(r.shards@).take(i as int),
        decreases r.shards.len() - i,
    {
        let d = &r.shards[i];
        let ghost before = shards@;
        let one = ShardObjectDigest {
            shard_id: d.shard_id,
            md5_hex: d.md5_hex.clone(),
            size: d.size,
            last_modified: d.last_modified,
        };
        shards.push(one);
        assert(digest_views(shards@) =~= digest_views(before).push(one@));
        assert(digest_views(shards@) =~= digest_views(r.shards@).take(i + 1));
        i = i + 1;
    }
    assert(digest_views(r.shards@).take(i as int) =~= digest_views(r.shards@));
    let mut errors: Vec<(ShardId, String)> = Vec::new();
    let mut k: usize = 0;
    while k < r.errors.len()
        invariant
            k <= r.errors.len(),
            errors.len() == k,
            error_views(errors@) == error_views(r.errors@).take(k as int),
        decreases r.errors.len() - k,
    {
        let ghost before = errors@;
        errors.push((r.errors[k].0, r.errors[k].1.clone()));
        assert(error_views(errors@) =~= error_views(before).push(error_views(r.errors@)[k as int]));
        assert(error_views(errors@) =~= error_views(r.errors@).take(k + 1));
        k = k + 1;
    }
    assert(error_views(r.errors@).take(k as int) =~= error_views(r.errors@));
    CrossVerifyReport {
        key: r.key.clone(),
        catalog_crc: r.catalog_crc,
        shards,
        consistent: r.consistent,
        errors,
    }
}

impl ShardedObjectStore {
    /// The objects to verify across shards, of those whose key starts with a prefix or
    /// of all, and how many are left out because they have one copy.
    pub fn cross_verify_keys(&self, prefix: Option<&str>) -> (r: (Vec<String>, u64))
        ensures
            text::views(r.0@) == catalog::keys_with_prefix(
                self@.entries,
                catalog::str_view(prefix),
            ).filter(has_several(self@.entries)),
            r.1 == catalog::keys_with_prefix(self@.entries, catalog::str_view(prefix)).len()
                - r.0@.len(),
    {
        let keys = self.catalog().keys(prefix);
        let ghost entries = self@.entries;
        let ghost all = text::views(keys@);
        let ghost pred = has_several(entries);
        let _count: usize = self.catalog().with_entries().len();
        let mut r: Vec<String> = Vec::new();
        let mut single: u64 = 0;
        let mut i: usize = 0;
        proof {
            catalog::lemma_prefix_keys_present(entries, catalog::str_view(prefix));
            placement::lemma_filter_none(all, pred);
            assert(text::views(r@) =~= all.take(0).filter(pred));
        }
        while i < keys.len()
            invariant
                i <= keys.len(),
                entries == self@.entries,
                all == text::views(keys@),
                pred == has_several(entries),
                forall|j: int| 0 <= j < all.len() ==> entries.contains_key(#[trigger] all[j]),
                text::views(r@) == all.take(i as int).filter(pred),
                single == i - r@.len(),
                single <= i,
            decreases keys.len() - i,
        {
            proof {
                placement::lemma_filter_step(all, i as int, pred);
                assert(entries.contains_key(all[i as int]));
                assert(all[i as int] == keys@[i as int]@);
            }
            let several = match self.placement(keys[i].as_str()) {
                Some(e) => e.shards.len() >= 2,
                None => false,
            };
            if several {
                let ghost before = r@;
                r.push(keys[i].clone());
                assert(text::views(r@) =~= text::views(before).push(all[i as int]));
            } else {
                single = single + 1;
            }
            i = i + 1;
        }
        assert(all.take(i as int) =~= all);
        assert(all.len() == keys@.len());
        (r, single)
    }

    /// Sums up the outcomes for several objects, and how many were left out.
    pub fn cross_verify_all(
        results: &Vec<Result<CrossVerifyReport, ShardError>>,
        skipped: u64,
    ) -> (r: CrossVerifyAllReport)
        ensures
            r@ == cross_all(cross_results(results@), skipped as nat),
    {
        let ghost all = cross_results(results@);
        let mut report = CrossVerifyAllReport {
            objects_checked: 0,
            objects_ok: 0,
            objects_mismatched: 0,
            objects_with_errors: 0,
            objects_skipped_single_replica: skipped,
            details: Vec::new(),
        };
        proof {
            assert(all.take(0) =~= Seq::<Option<CrossReport>>::empty());
            assert(report@.details =~= Seq::<CrossReport>::empty());
        }
        let mut i: usize = 0;
        while i < results.len()
            invariant
                i <= results.len(),
                all == cross_results(results@),
                report@ == cross_all(all.take(i as int), skipped as nat),
                report.objects_checked == i,
                report.objects_ok <= i,
                report.objects_mismatched <= i,
                report.objects_with_errors <= i,
            decreases results.len() - i,
        {
            proof {
                assert(all.take(i + 1).drop_last() =~= all.take(i as int));
                assert(all.take(i + 1).last() == all[i as int]);
            }
            report.objects_checked = report.objects_checked + 1;
            match &results[i] {
                Err(_) => {
                    report.objects_with_errors = report.objects_with_errors + 1;
                },
                Ok(r) => {
                    if r.consistent && r.errors.len() == 0 {
                        report.objects_ok = report.objects_ok + 1;
                    } else {
                        if !r.consistent {
                            report.objects_mismatched = report.objects_mismatched + 1;
                        }
                        if r.errors.len() > 0 {
                            report.objects_with_errors = report.objects_with_errors + 1;
                        }
                        let ghost before = report.details@;
                        let one = copy_report(r);
                        report.details.push(one);
                        assert(cross_views(report.details@) =~= cross_views(before).push(r@));
                    }
                },
            }
            i = i + 1;
        }
        assert(all.take(i as int) =~= all);
        report
    }
}

// -- Laws -------------------------------------------------------------------

proof fn lemma_all_alike(results: Seq<DigestResult>, hex: Seq<char>)
    requires
        forall|i: int|
            0 <= i < results.len() ==> ((#[trigger] results[i]) matches Ok(d) ==> d.md5_hex == hex),
    ensures
        forall|i: int| 0 <= i < digests(results).len() ==> (#[trigger] digests(results)[i]).md5_hex == hex,
    decreases results.len(),
{
    if results.len() > 0 {
        let head = results.drop_last();
        assert forall|i: int| 0 <= i < head.len() implies ((#[trigger] head[i]) matches Ok(d)
            ==> d.md5_hex == hex) by {
            assert(results[i] == head[i]);
        }
        lemma_all_alike(head, hex);
        assert(results[results.len() - 1] == results.last());
        let all = digests(results);
        assert forall|i: int| 0 <= i < all.len() implies (#[trigger] all[i]).md5_hex == hex by {
            if i < digests(head).len() {
                assert(all[i] == digests(head)[i]);
            }
        }
    }
}

/// Copies that could all be read and are the same are never reported as mismatched,
/// whatever errors the other copies gave.
pub proof fn equal_copies_are_consistent(
    key: Seq<char>,
    catalog_crc: Option<u32>,
    results: Seq<DigestResult>,
    hex: Seq<char>,
)
    requires
        forall|i: int|
            0 <= i < results.len() ==> ((#[trigger] results[i]) matches Ok(d) ==> d.md5_hex == hex),
    ensures
        cross_report(key, catalog_crc, results).consistent,
{
    lemma_all_alike(results, hex);
}

/// Every object that is checked is counted: as fine, or else as mismatched or with
/// errors, or as both, but never as fine and as one of these.
pub proof fn every_object_is_counted(results: Seq<Option<CrossReport>>, skipped: nat)
    ensures
        ({
            let r = cross_all(results, skipped);
            &&& r.objects_checked == results.len()
            &&& r.objects_ok + r.objects_mismatched + r.objects_with_errors >= results.len()
            &&& r.objects_ok + r.objects_mismatched <= results.len()
            &&& r.objects_ok + r.objects_with_errors <= results.len()
        }),
    decreases results.len(),
{
    if results.len() > 0 {
        every_object_is_counted(results.drop_last(), skipped);
    }
}

/// A plain digest is read from a tag whether it stands bare, in quotes, or in the quotes
/// of a weak tag. The tag of an object that was uploaded in parts, which has a dash, is
/// no digest.
pub proof fn a_plain_digest_is_read_from_its_tag(hex: Seq<char>, tag: Seq<char>)
    requires
        is_md5(hex),
    ensures
        tag_digest(hex) == Some(hex),
        tag_digest(seq!['"'] + hex + seq!['"']) == Some(hex),
        tag_digest(seq!['W', '/', '"'] + hex + seq!['"']) == Some(hex),
        tag.contains('-') ==> tag_digest(tag) is None,
        tag_digest(tag) matches Some(d) ==> is_md5(d),
{
    let q = seq!['"'];
    let stop = |c: char| c != '"';
    assert(digest::is_hex(hex[0]));
    assert(digest::is_hex(hex[31]));
    text::lemma_span(hex, stop, 0);
    assert(hex.skip(0) =~= hex);
    assert(strong(hex) == hex);
    assert(without_end_quotes(hex) == hex);
    let quoted = q + hex + q;
    assert(quoted[1] == hex[0]);
    assert(strong(quoted) == quoted);
    text::lemma_span(quoted, stop, 1);
    assert(quoted.skip(1) =~= hex + q);
    assert((hex + q).drop_last() =~= hex);
    assert(without_end_quotes(hex + q) == hex);
    let weak = seq!['W', '/', '"'] + hex + q;
    assert(weak.skip(2) =~= quoted);
    assert(strong(weak) == quoted);
    if tag.contains('-') {
        lemma_dash_stays(tag);
    }
}

proof fn lemma_dash_stays(tag: Seq<char>)
    requires
        tag.contains('-'),
    ensures
        tag_digest(tag) is None,
{
    lemma_strong_keeps(tag);
    let s = strong(tag);
    let stop = |c: char| c != '"';
    text::lemma_span_ends(s, stop);
    let n = text::span(s, stop) as int;
    let lead = without_lead_quotes(s);
    let i = s.index_of('-');
    assert(i >= n) by {
        if i < n {
            assert(!stop(s[i]));
        }
    }
    assert(lead[i - n] == '-');
    lemma_end_keeps(lead);
    let hex = without_end_quotes(lead);
    let k = hex.index_of('-');
    assert(!digest::is_hex(hex[k]));
}

proof fn lemma_strong_keeps(tag: Seq<char>)
    requires
        tag.contains('-'),
    ensures
        strong(tag).contains('-'),
    decreases tag.len(),
{
    if tag.len() >= 2 && tag[0] == 'W' && tag[1] == '/' {
        let i = tag.index_of('-');
        assert(tag.skip(2)[i - 2] == '-');
        lemma_strong_keeps(tag.skip(2));
    }
}

proof fn lemma_end_keeps(s: Seq<char>)
    requires
        s.contains('-'),
    ensures
        without_end_quotes(s).contains('-'),
    decreases s.len(),
{
    if s.len() > 0 && s.last() == '"' {
        let i = s.index_of('-');
        assert(s.drop_last()[i] == '-');
        lemma_end_keeps(s.drop_last());
    }
}

/// The body of a copy is read only if the head succeeded and its tag is no plain digest.
/// What is reported of a copy is of its shard, with the size and time that were told.
pub proof fn a_body_is_read_only_where_the_tag_is_no_digest(
    shard: usize,
    head: Result<HeadInfo, String>,
    body: BodyRead,
)
    ensures
        head_digest(shard, head) is None <==> (head matches Ok(h) && (h.e_tag matches Some(tag)
            ==> tag_digest(tag@) is None)),
        head_digest(shard, head) matches Some(Ok(d)) ==> (head matches Ok(h) && d.shard_id == shard
            && d.size == h.size && d.last_modified == h.last_modified && (h.e_tag matches Some(tag)
            && tag_digest(tag@) == Some(d.md5_hex))),
        head_digest(shard, head) matches Some(Err(e)) ==> head is Err && e.0 == shard,
        body_digest(shard, body) is Ok <==> body is Read,
        body_digest(shard, body) matches Ok(d) ==> d.shard_id == shard && (body matches BodyRead::Read {
            data,
            last_modified,
        } && d.md5_hex == digest::md5_hex_of(data@) && d.last_modified == last_modified && (
        data@.len() <= u64::MAX ==> d.size == data@.len())),
        body_digest(shard, body) matches Err(e) ==> e.0 == shard,
{
}

proof fn lemma_digests(results: Seq<DigestResult>)
    ensures
        forall|d: DigestSpec| #[trigger] digests(results).contains(d) <==> results.contains(Ok(d)),
        forall|e: (usize, Seq<char>)| #[trigger]
            digest_errors(results).contains(e) <==> results.contains(Err(e)),
        digests(results).len() == results.filter(|r: DigestResult| r is Ok).len(),
        digest_errors(results).len() == results.filter(|r: DigestResult| r is Err).len(),
    decreases results.len(),
{
    reveal(Seq::filter);
    if results.len() > 0 {
        let head = results.drop_last();
        lemma_digests(head);
        assert forall|r: DigestResult| #[trigger] results.contains(r) <==> head.contains(r) || r
            == results.last() by {
            if head.contains(r) {
                assert(results[head.index_of(r)] == r);
            }
            if results.contains(r) && r != results.last() {
                assert(head[results.index_of(r)] == r);
            }
            assert(results[results.len() - 1] == results.last());
        }
        let d0 = digests(head);
        let e0 = digest_errors(head);
        assert forall|d: DigestSpec| #[trigger] digests(results).contains(d) <==> results.contains(
            Ok(d),
        ) by {
            if let Ok(x) = results.last() {
                let d1 = d0.push(x);
                assert(d1[d0.len() as int] == x);
                if d0.contains(d) {
                    assert(d1[d0.index_of(d)] == d);
                }
                if d1.contains(d) && d != x {
                    assert(d0[d1.index_of(d)] == d);
                }
            }
        }
        assert forall|e: (usize, Seq<char>)| #[trigger]
            digest_errors(results).contains(e) <==> results.contains(Err(e)) by {
            if let Err(x) = results.last() {
                let e1 = e0.push(x);
                assert(e1[e0.len() as int] == x);
                if e0.contains(e) {
                    assert(e1[e0.index_of(e)] == e);
                }
                if e1.contains(e) && e != x {
                    assert(e0[e1.index_of(e)] == e);
                }
            }
        }
    } else {
        assert forall|d: DigestSpec| !(#[trigger] digests(results).contains(d)) by {}
        assert forall|e: (usize, Seq<char>)| !(#[trigger] digest_errors(results).contains(e)) by {}
    }
}

/// The copies of an object are consistent exactly if all that could be read have the same
/// digest. Every copy is reported, as its digest or as its error.
pub proof fn copies_are_consistent_iff_their_digests_are_equal(
    key: Seq<char>,
    catalog_crc: Option<u32>,
    results: Seq<DigestResult>,
)
    ensures
        ({
            let r = cross_report(key, catalog_crc, results);
            let alike = |i: int, j: int|
                results[i] matches Ok(a) ==> (results[j] matches Ok(b) ==> a.md5_hex == b.md5_hex);
            &&& r.key == key && r.catalog_crc == catalog_crc
            &&& r.consistent <==> forall|i: int, j: int|
                0 <= i < results.len() && 0 <= j < results.len() ==> #[trigger] alike(i, j)
            &&& r.shards.len() == results.filter(|r: DigestResult| r is Ok).len()
            &&& r.errors.len() == results.filter(|r: DigestResult| r is Err).len()
            &&& forall|e: (usize, Seq<char>)| #[trigger]
                r.errors.contains(e) <==> results.contains(Err(e))
            &&& forall|d: DigestSpec| #[trigger]
                r.shards.contains(d) <==> results.contains(Ok(d))
        }),
{
    let r = cross_report(key, catalog_crc, results);
    let alike = |i: int, j: int|
        results[i] matches Ok(a) ==> (results[j] matches Ok(b) ==> a.md5_hex == b.md5_hex);
    lemma_digests(results);
    if r.consistent {
        assert forall|i: int, j: int|
            0 <= i < results.len() && 0 <= j < results.len() implies #[trigger] alike(i, j) by {
            if results[i] is Ok && results[j] is Ok {
                let a = results[i]->Ok_0;
                let b = results[j]->Ok_0;
                assert(results.contains(results[i]) && results.contains(results[j]));
                assert(r.shards.contains(a) && r.shards.contains(b));
                let x = r.shards.index_of(a);
                let y = r.shards.index_of(b);
                assert(r.shards[x].md5_hex == r.shards[y].md5_hex);
                assert(a.md5_hex == b.md5_hex);
            }
        }
    } else {
        let (x, y) = choose|x: int, y: int|
            0 <= x < r.shards.len() && 0 <= y < r.shards.len() && (#[trigger] r.shards[x]).md5_hex
                != (#[trigger] r.shards[y]).md5_hex;
        assert(r.shards.contains(r.shards[x]) && r.shards.contains(r.shards[y]));
        let i = results.index_of(Ok(r.shards[x]));
        let j = results.index_of(Ok(r.shards[y]));
        assert(!alike(i, j));
    }
}

/// Objects are counted by what their reports say: fine if the copies are consistent and
/// all could be read, mismatched if they are not consistent, with errors if one could not
/// be read or the object could not be verified at all.
pub proof fn objects_are_counted_by_what_they_are(results: Seq<Option<CrossReport>>, skipped: nat)
    ensures
        ({
            let r = cross_all(results, skipped);
            &&& r.objects_ok == results.filter(
                |o: Option<CrossReport>| o matches Some(x) && x.consistent && x.errors.len() == 0,
            ).len()
            &&& r.objects_mismatched == results.filter(
                |o: Option<CrossReport>| o matches Some(x) && !x.consistent,
            ).len()
            &&& r.objects_with_errors == results.filter(
                |o: Option<CrossReport>| o matches Some(x) ==> x.errors.len() > 0,
            ).len()
            &&& r.objects_skipped_single_replica == skipped
            &&& r.details.len() == results.filter(
                |o: Option<CrossReport>|
                    o matches Some(x) && (!x.consistent || x.errors.len() > 0),
            ).len()
            &&& forall|i: int|
                0 <= i < r.details.len() ==> results.contains(Some(#[trigger] r.details[i]))
        }),
    decreases results.len(),
{
    reveal(Seq::filter);
    if results.len() > 0 {
        let head = results.drop_last();
        objects_are_counted_by_what_they_are(head, skipped);
        let before = cross_all(head, skipped).details;
        let after = cross_all(results, skipped).details;
        assert(results[results.len() - 1] == results.last());
        assert forall|i: int| 0 <= i < after.len() implies results.contains(
            Some(#[trigger] after[i]),
        ) by {
            if i < before.len() {
                assert(after[i] == before[i]);
                let k = head.index_of(Some(before[i]));
                assert(results[k] == Some(after[i]));
            } else {
                assert(results.contains(results[results.len() - 1]));
            }
        }
    }
}

/// An object can be verified across shards exactly if at least two shards that exist hold
/// it, and then on all of these.
pub proof fn an_object_with_two_copies_can_be_verified(c: store::ClusterState, key: Seq<char>)
    ensures
        cross_check(c, key) == Err::<Seq<usize>, error::ErrorSpec>(error::ErrorSpec::NotFound(key))
            <==> !c.entries.contains_key(key),
        cross_check(c, key) is Ok <==> c.entries.contains_key(key) && c.entries[key].shards.filter(
            |id: usize| id < c.shards.len(),
        ).len() >= 2,
        cross_check(c, key) matches Ok(held) ==> forall|id: usize| #[trigger]
            held.contains(id) <==> c.entries[key].shards.contains(id) && id < c.shards.len(),
{
    let n = c.shards.len();
    let pred = |id: usize| id < n;
    assert(pred =~= (|id: usize| id < c.shards.len()));
    if c.entries.contains_key(key) {
        let held = c.entries[key].shards;
        assert forall|id: usize| #[trigger] writes::existing(n, held).contains(id)
            <==> held.contains(id) && id < n by {
            writes::lemma_kept(held, pred, id);
        }
    }
}

/// The objects to verify are those with the prefix of which the catalog lists two copies
/// or more, each once.
pub proof fn what_has_two_copies_is_verified(
    entries: catalog::Entries,
    prefix: Option<Seq<char>>,
    key: Seq<char>,
)
    requires
        entries.dom().finite(),
    ensures
        ({
            let keys = catalog::keys_with_prefix(entries, prefix).filter(has_several(entries));
            &&& keys.contains(key) <==> {
                &&& entries.contains_key(key)
                &&& prefix matches Some(p) ==> p.is_prefix_of(key)
                &&& entries[key].shards.len() >= 2
            }
            &&& keys.no_duplicates()
        }),
{
    let all = catalog::keys_with_prefix(entries, prefix);
    let pred = has_several(entries);
    catalog::lemma_prefix_keys(entries, prefix);
    catalog::lemma_filter_members(all, pred);
    catalog::lemma_filter_unique(all, pred);
    if all.contains(key) && pred(key) {
        let i = all.index_of(key);
        all.lemma_filter_contains(pred, i);
    }
    if all.filter(pred).contains(key) {
        all.lemma_filter_contains_rev(pred, key);
        let i = all.filter(pred).index_of(key);
        all.lemma_filter_pred(pred, i);
    }
}

} // verus!
