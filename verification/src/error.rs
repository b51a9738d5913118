//! Errors of the cluster.

use vstd::prelude::*;
use vstd::string::*;
use crate::ids::ShardId;
use crate::text;
use crate::text::number;

verus! {

/// An error of the cluster.
#[derive(Debug)]
pub enum ShardError {
    NoShards,
    NotFound(String),
    AllReplicasFailed { path: String, errors: Vec<String> },
    InsufficientWrites { path: String, required: usize, actual: usize, errors: Vec<String> },
    /// An error of a shard, in words.
    ObjectStore(String),
    /// An error of the file system, in words.
    Io(String),
    ReadOnly,
    VacuumOfflineShard { shard_id: ShardId },
    VacuumAlreadyRunning,
}

/// What an error says.
pub enum ErrorSpec {
    NoShards,
    NotFound(Seq<char>),
    AllReplicasFailed { path: Seq<char>, errors: Seq<Seq<char>> },
    InsufficientWrites { path: Seq<char>, required: nat, actual: nat, errors: Seq<Seq<char>> },
    ObjectStore(Seq<char>),
    Io(Seq<char>),
    ReadOnly,
    VacuumOfflineShard { shard_id: usize },
    VacuumAlreadyRunning,
}

impl View for ShardError {
    type V = ErrorSpec;

    open spec fn view(&self) -> ErrorSpec {
        match *self {
            ShardError::NoShards => ErrorSpec::NoShards,
            ShardError::NotFound(k) => ErrorSpec::NotFound(k@),
            ShardError::AllReplicasFailed { path, errors } => ErrorSpec::AllReplicasFailed {
                path: path@,
                errors: text::views(errors@),
            },
            ShardError::InsufficientWrites { path, required, actual, errors } => ErrorSpec::InsufficientWrites {
                path: path@,
                required: required as nat,
                actual: actual as nat,
                errors: text::views(errors@),
            },
            ShardError::ObjectStore(m) => ErrorSpec::ObjectStore(m@),
            ShardError::Io(m) => ErrorSpec::Io(m@),
            ShardError::ReadOnly => ErrorSpec::ReadOnly,
            ShardError::VacuumOfflineShard { shard_id } => ErrorSpec::VacuumOfflineShard {
                shard_id,
            },
            ShardError::VacuumAlreadyRunning => ErrorSpec::VacuumAlreadyRunning,
        }
    }
}

/// How `{:?}` writes a list of strings.
pub uninterp spec fn debug_list(items: Seq<Seq<char>>) -> Seq<char>;

/// `std::fmt::Debug` of a `Vec<String>`, written by `{:?}`.
#[verifier::external_body]
fn write_debug_list(items: &Vec<String>) -> (s: String)
    ensures
        s@ == debug_list(text::views(items@)),
{
    format!("{:?}", items)
}

/// An error in words, given how its list of errors is written.
pub open spec fn error_text(e: ErrorSpec, list: Seq<char>) -> Seq<char> {
    match e {
        ErrorSpec::NoShards => "no shards available"@,
        ErrorSpec::NotFound(k) => "object not found: "@ + k,
        ErrorSpec::AllReplicasFailed { path, .. } => "all replicas failed for "@ + path + ": "@
            + list,
        ErrorSpec::InsufficientWrites { path, required, actual, .. } => "insufficient writes for "@
            + path + ": required "@ + text::decimal(required) + ", got "@ + text::decimal(actual)
            + ": "@ + list,
        ErrorSpec::ObjectStore(m) => "object_store error: "@ + m,
        ErrorSpec::Io(m) => "io error: "@ + m,
        ErrorSpec::ReadOnly => "store is read-only"@,
        ErrorSpec::VacuumOfflineShard { shard_id } => "vacuum requires all shards healthy, but shard "@
            + text::decimal(shard_id as nat) + " is offline"@,
        ErrorSpec::VacuumAlreadyRunning => "vacuum is already running"@,
    }
}

/// The errors that an error lists.
pub open spec fn listed_errors(e: ErrorSpec) -> Seq<Seq<char>> {
    match e {
        ErrorSpec::AllReplicasFailed { errors, .. } => errors,
        ErrorSpec::InsufficientWrites { errors, .. } => errors,
        _ => Seq::empty(),
    }
}

impl ShardError {
    /// The error in words.
    pub fn message(&self) -> (s: String)
        ensures
            s@ == error_text(self@, debug_list(listed_errors(self@))),
    {
        match self {
            ShardError::AllReplicasFailed { errors, .. } => {
                let list = write_debug_list(errors);
                self.message_with(list.as_str())
            },
            ShardError::InsufficientWrites { errors, .. } => {
                let list = write_debug_list(errors);
                self.message_with(list.as_str())
            },
            _ => self.message_with(""),
        }
    }

    /// The error in words, given how its list of errors is written.
    pub fn message_with(&self, list: &str) -> (s: String)
        ensures
            s@ == error_text(self@, list@),
    {
        match self {
            ShardError::NoShards => "no shards available".to_owned(),
            ShardError::NotFound(k) => {
                let mut s = "object not found: ".to_owned();
                s.append(k.as_str());
                s
            },
            ShardError::AllReplicasFailed { path, .. } => {
                let mut s = "all replicas failed for ".to_owned();
                s.append(path.as_str());
                s.append(": ");
                s.append(list);
                s
            },
            ShardError::InsufficientWrites { path, required, actual, .. } => {
                let mut s = "insufficient writes for ".to_owned();
                s.append(path.as_str());
                s.append(": required ");
                s.append(number(*required as u64).as_str());
                s.append(", got ");
                s.append(number(*actual as u64).as_str());
                s.append(": ");
                s.append(list);
                s
            },
            ShardError::ObjectStore(m) => {
                let mut s = "object_store error: ".to_owned();
                s.append(m.as_str());
                s
            },
            ShardError::Io(m) => {
                let mut s = "io error: ".to_owned();
                s.append(m.as_str());
                s
            },
            ShardError::ReadOnly => "store is read-only".to_owned(),
            ShardError::VacuumOfflineShard { shard_id } => {
                let mut s = "vacuum requires all shards healthy, but shard ".to_owned();
                s.append(number(*shard_id as u64).as_str());
                s.append(" is offline");
                s
            },
            ShardError::VacuumAlreadyRunning => "vacuum is already running".to_owned(),
        }
    }
}

} // verus!
