# shardedobjstr

The logic of a sharded object store, verified with Verus: where the copies of an object go,
what is recorded of them, and what keeps the right number of them in the right places while
shards fail, go away and come back.

The library does no I/O. An operation that takes several steps (a put, a read, a sweep, a
sync) is a job: it says what to do next on which shard, and takes the outcome. The contract of
each job is a function from the state of the cluster, the state of the job and an outcome to
what comes of them, so that what is proved holds whatever the shards answer.

## Layout

`src/` is the verified library.

| modules | what they hold |
| --- | --- |
| `store`, `catalog`, `string_map`, `ids`, `tally`, `time`, `text`, `path`, `error` | the state of a cluster and what it is made of |
| `replication`, `placement`, `balance` | jump consistent hashing, where objects go, how many copies they have |
| `writes`, `put`, `read`, `delete`, `listing`, `multipart`, `event` | objects |
| `metadata`, `tlv`, `meta_put`, `meta_read`, `digest` | the metadata of objects, its encoding and where shards keep it |
| `markers`, `scan`, `verify`, `cross_verify` | delete markers, scans, and the comparison of copies |
| `repair`, `redistribute`, `drain`, `retire`, `sync`, `partitioned` | keeping copies where they should be |
| `config`, `diagnostics`, `persistence`, `opening`, `cli`, `commands` | configuration files, catalog files, command lines |

Each module ends with its laws: proof functions that state what holds of its operations
together.

`tests/` runs the library on concrete values. `app/` holds what is around it: the command-line
tools, the stores of the shards, catalog files, and a Python module.

## What is trusted

Some functions of other crates are called through declarations whose contracts are believed:
CRC-32C (`crc32c`) and MD5 (`md5`) in `digest`, attributes and paths of objects
(`object_store`) in `metadata` and `path`, and times (`chrono`) in `time`. The rest of what is
believed is about the standard library: `String::push` in `text`, `core::str::from_utf8` in
`tlv`, and the debug form of a list of strings in `error`.
