//! Configuration files.

use shardedobjstr::config::{
    is_tree_config, parse_cluster_conf, parse_tree_conf, ClusterConf, ShardConf,
};
use shardedobjstr::diagnostics::{validate_cluster_conf, ClusterDiagLevel, PathFacts};

/// What the machine says of devices that are there.
fn present(n: usize) -> Vec<PathFacts> {
    (0..n)
        .map(|_| PathFacts {
            exists: true,
            parent: Some("/dev".to_string()),
            parent_exists: true,
            compression_known: true,
        })
        .collect()
}

#[test]
fn parse_minimal() {
    let text = "shard raw /dev/sda\n";
    let conf = parse_cluster_conf(text).unwrap();
    assert_eq!(conf.replicas, 1);
    assert_eq!(conf.shards.len(), 1);
    assert!(matches!(&conf.shards[0], ShardConf::Raw { path, read_only, .. }
        if path == "/dev/sda" && !read_only));
    assert!(conf.catalog.is_none());
}

#[test]
fn parse_full_config() {
    let text = r#"
# Full cluster config
replicas  3
catalog   json:/tmp/catalog.json
read_prefer  round-robin
direct_io    true
compression  zstd
size_mb      1024
read_only    false

shard  raw  /dev/nvme0n1
shard  raw  /dev/nvme1n1  compression=none
shard  /tmp/extra.raw  size_mb=512  direct_io
"#;
    let conf = parse_cluster_conf(text).unwrap();
    assert_eq!(conf.replicas, 3);
    assert_eq!(conf.catalog.as_deref(), Some("json:/tmp/catalog.json"));
    assert_eq!(conf.read_prefer.as_deref(), Some("round-robin"));
    assert!(conf.direct_io);
    assert_eq!(conf.compression.as_deref(), Some("zstd"));
    assert_eq!(conf.size_mb, Some(1024));
    assert!(!conf.read_only);

    assert_eq!(conf.shards.len(), 3);
    assert!(matches!(&conf.shards[0], ShardConf::Raw { path, .. } if path == "/dev/nvme0n1"));
    assert!(matches!(&conf.shards[1], ShardConf::Raw { compression, .. }
        if compression.as_deref() == Some("none")));
    assert!(matches!(&conf.shards[2], ShardConf::Raw { path, size_mb, direct_io, .. }
        if path == "/tmp/extra.raw" && *size_mb == Some(512) && *direct_io == Some(true)));
}

#[test]
fn parse_implicit_raw_type() {
    let text = "shard /dev/sda\nshard /dev/sdb\n";
    let conf = parse_cluster_conf(text).unwrap();
    assert_eq!(conf.shards.len(), 2);
    assert!(matches!(&conf.shards[0], ShardConf::Raw { path, .. } if path == "/dev/sda"));
    assert!(matches!(&conf.shards[1], ShardConf::Raw { path, .. } if path == "/dev/sdb"));
}

#[test]
fn parse_shard_readonly() {
    let text = "shard raw /dev/sda readonly\n";
    let conf = parse_cluster_conf(text).unwrap();
    assert!(matches!(&conf.shards[0], ShardConf::Raw { read_only: true, .. }));
}

#[test]
fn parse_fs_shard() {
    let text = "shard fs /mnt/data\nshard fs /mnt/backup readonly\n";
    let conf = parse_cluster_conf(text).unwrap();
    assert_eq!(conf.shards.len(), 2);
    assert!(matches!(&conf.shards[0], ShardConf::Fs { root, read_only }
        if root == "/mnt/data" && !read_only));
    assert!(matches!(&conf.shards[1], ShardConf::Fs { root, read_only }
        if root == "/mnt/backup" && *read_only));
}

#[test]
fn parse_s3_shard() {
    let text = "shard s3 endpoint=https://s3.example.com bucket=my-data region=us-east-1\n";
    let conf = parse_cluster_conf(text).unwrap();
    assert_eq!(conf.shards.len(), 1);
    assert!(matches!(&conf.shards[0], ShardConf::S3 { endpoint, bucket, region, .. }
        if endpoint == "https://s3.example.com" && bucket == "my-data"
        && region.as_deref() == Some("us-east-1")));
}

#[test]
fn parse_s3_with_credentials() {
    let text = r#"shard s3 endpoint=http://localhost:9000 bucket=test access_key=admin secret_key="password" path_style"#;
    let conf = parse_cluster_conf(&format!("{text}\n")).unwrap();
    assert!(matches!(&conf.shards[0], ShardConf::S3 {
        endpoint, bucket, access_key, secret_key, path_style, ..
    } if endpoint == "http://localhost:9000" && bucket == "test"
        && access_key.as_deref() == Some("admin")
        && secret_key.as_deref() == Some("password")
        && *path_style));
}

#[test]
fn parse_mem_shard() {
    let text = "shard mem\n";
    let conf = parse_cluster_conf(text).unwrap();
    assert!(matches!(&conf.shards[0], ShardConf::Mem));
}

#[test]
fn parse_mixed_shards() {
    let text = "\
replicas 2
shard raw /dev/sda
shard fs /mnt/data
shard s3 endpoint=https://s3.example.com bucket=archive
shard mem
";
    let conf = parse_cluster_conf(text).unwrap();
    assert_eq!(conf.shards.len(), 4);
    assert!(matches!(&conf.shards[0], ShardConf::Raw { .. }));
    assert!(matches!(&conf.shards[1], ShardConf::Fs { .. }));
    assert!(matches!(&conf.shards[2], ShardConf::S3 { .. }));
    assert!(matches!(&conf.shards[3], ShardConf::Mem));
}

#[test]
fn daemon_directives_ignored() {
    let text = "\
cluster  test-cluster
bucket   testbucket
flush_interval  30
admin_token  secret123
access_key  AKID
secret_key  SKEY
cors_origin  *
log_file  /tmp/log
log_buffer_size  1000
event_socket  /tmp/events.sock
event_secret  shh
max_readers  16
event_source  tcp:localhost:9090
catalog_path  /tmp/catalog.json
catalog_format  json
catalog_flush_interval  30
recovery_enabled  true
recovery_poll_secs  10
repair_replication_interval  300
repair_replication_batch_size  500
replicas  2
shard raw /dev/sda
shard raw /dev/sdb
";
    let conf = parse_cluster_conf(text).unwrap();
    assert_eq!(conf.replicas, 2);
    assert_eq!(conf.shards.len(), 2);
}

#[test]
fn tree_config_node_lines_ignored() {
    let text = "\
cluster  prod
replicas  2
shard raw /dev/sda
shard raw /dev/sdb
top  rf=3  listen=0.0.0.0:8000  endpoint=http://10.0.1.10:8000
";
    let conf = parse_cluster_conf(text).unwrap();
    assert_eq!(conf.shards.len(), 2);
}

#[test]
fn indented_lines_ignored() {
    let text = "\
replicas  2
shard raw /dev/sda
shard raw /dev/sdb
top  rf=2  listen=0.0.0.0:8000  endpoint=http://10.0.1.10:8000
  raw  /dev/sdc
  s3  endpoint=https://s3.example.com  bucket=test
";
    let conf = parse_cluster_conf(text).unwrap();
    // Only the top-level shard lines are parsed.
    assert_eq!(conf.shards.len(), 2);
}

#[test]
fn error_no_shards() {
    let text = "replicas 2\n";
    let err = parse_cluster_conf(text).unwrap_err();
    assert!(err.contains("no shards"), "got: {err}");
}

#[test]
fn error_unknown_directive() {
    let text = "bogus 42\nshard raw /dev/sda\n";
    let err = parse_cluster_conf(text).unwrap_err();
    assert!(err.contains("unknown directive 'bogus'"), "got: {err}");
}

#[test]
fn error_invalid_replicas() {
    let text = "replicas abc\nshard raw /dev/sda\n";
    let err = parse_cluster_conf(text).unwrap_err();
    assert!(err.contains("invalid replicas"), "got: {err}");
}

#[test]
fn error_zero_replicas() {
    let text = "replicas 0\nshard raw /dev/sda\n";
    let err = parse_cluster_conf(text).unwrap_err();
    assert!(err.contains("replicas must be >= 1"), "got: {err}");
}

#[test]
fn error_invalid_read_prefer() {
    let text = "read_prefer bogus\nshard raw /dev/sda\n";
    let err = parse_cluster_conf(text).unwrap_err();
    assert!(err.contains("unknown read_prefer"), "got: {err}");
}

#[test]
fn error_shard_unknown_option() {
    let text = "shard raw /dev/sda foobar\n";
    let err = parse_cluster_conf(text).unwrap_err();
    assert!(err.contains("unknown raw shard option"), "got: {err}");
}

#[test]
fn error_s3_missing_endpoint() {
    let text = "shard s3 bucket=test\n";
    let err = parse_cluster_conf(text).unwrap_err();
    assert!(err.contains("missing endpoint"), "got: {err}");
}

#[test]
fn error_s3_missing_bucket() {
    let text = "shard s3 endpoint=https://s3.example.com\n";
    let err = parse_cluster_conf(text).unwrap_err();
    assert!(err.contains("missing bucket"), "got: {err}");
}

#[test]
fn comments_and_blank_lines() {
    let text = r#"
# This is a comment
replicas  2

# Another comment
shard  raw  /dev/sda
shard  raw  /dev/sdb
"#;
    let conf = parse_cluster_conf(text).unwrap();
    assert_eq!(conf.replicas, 2);
    assert_eq!(conf.shards.len(), 2);
}

#[test]
fn direct_io_flag_alone() {
    let text = "direct_io\nshard raw /dev/sda\n";
    let conf = parse_cluster_conf(text).unwrap();
    assert!(conf.direct_io);
}

#[test]
fn validate_basic() {
    let text = "shard raw /dev/sda\nshard raw /dev/sdb\n";
    let conf = parse_cluster_conf(text).unwrap();
    let diags = validate_cluster_conf(&conf, true, &present(2));
    for d in &diags {
        assert_ne!(d.level, ClusterDiagLevel::Error, "unexpected error: {}", d.message);
    }
}

#[test]
fn validate_rf_exceeds_shards() {
    let conf = ClusterConf {
        replicas: 5,
        min_writes: None,
        catalog: None,
        read_prefer: None,
        direct_io: false,
        compression: None,
        size_mb: None,
        read_only: false,
        delete_requires_min_writes: false,
        shards: vec![
            ShardConf::Raw { path: "/dev/sda".into(), read_only: false,
                        compression: None, direct_io: None, size_mb: None },
        ],
    };
    let diags = validate_cluster_conf(&conf, true, &present(1));
    assert!(diags.iter().any(|d| d.level == ClusterDiagLevel::Warning
        && d.message.contains("exceeds shard count")));
}

// -- Tree config tests ---------------------------------------------------

#[test]
fn tree_simple() {
    let text = r#"
cluster  test-cluster

root  rf=2
  raw  /dev/nvme0n1
  raw  /dev/nvme1n1
"#;
    let conf = parse_tree_conf(text).unwrap();
    assert_eq!(conf.cluster_name, "test-cluster");
    assert_eq!(conf.root.name, "root");
    assert_eq!(conf.root.replication_factor, 2);
    assert_eq!(conf.root.shards.len(), 2);
    assert!(matches!(&conf.root.shards[0], ShardConf::Raw { path, .. }
        if path == "/dev/nvme0n1"));
    assert!(matches!(&conf.root.shards[1], ShardConf::Raw { path, .. }
        if path == "/dev/nvme1n1"));
    assert!(conf.root.children.is_empty());
}

#[test]
fn tree_nested() {
    let text = r#"
cluster  nested-test

top  rf=2
  raw  /dev/nvme0n1
  inner  rf=1
    raw  /dev/sda
    fs   /mnt/data
  s3   endpoint=https://s3.amazonaws.com  bucket=backup  region=us-east-1
"#;
    let conf = parse_tree_conf(text).unwrap();
    let top = &conf.root;
    assert_eq!(top.name, "top");
    assert_eq!(top.replication_factor, 2);
    // 3 shards: raw + Node(inner) + s3
    assert_eq!(top.shards.len(), 3);
    assert!(matches!(&top.shards[0], ShardConf::Raw { path, .. }
        if path == "/dev/nvme0n1"));
    assert!(matches!(&top.shards[1], ShardConf::Node(name) if name == "inner"));
    assert!(matches!(&top.shards[2], ShardConf::S3 { endpoint, bucket, .. }
        if endpoint == "https://s3.amazonaws.com" && bucket == "backup"));

    // Child node
    assert_eq!(top.children.len(), 1);
    let inner = &top.children[0];
    assert_eq!(inner.name, "inner");
    assert_eq!(inner.replication_factor, 1);
    assert_eq!(inner.shards.len(), 2);
    assert!(matches!(&inner.shards[0], ShardConf::Raw { path, .. }
        if path == "/dev/sda"));
    assert!(matches!(&inner.shards[1], ShardConf::Fs { root, .. }
        if root == "/mnt/data"));
}

#[test]
fn tree_deeply_nested() {
    let text = r#"
top  rf=2
  raw  /dev/nvme0n1
  mid  rf=2
    raw  /dev/sda
    leaf  rf=1
      fs   /mnt/leaf
      mem
"#;
    let conf = parse_tree_conf(text).unwrap();
    assert_eq!(conf.cluster_name, "top"); // defaults to root name
    let mid = &conf.root.children[0];
    assert_eq!(mid.name, "mid");
    assert_eq!(mid.replication_factor, 2);
    let leaf = &mid.children[0];
    assert_eq!(leaf.name, "leaf");
    assert_eq!(leaf.replication_factor, 1);
    assert_eq!(leaf.shards.len(), 2);
    assert!(matches!(&leaf.shards[0], ShardConf::Fs { root, .. }
        if root == "/mnt/leaf"));
    assert!(matches!(&leaf.shards[1], ShardConf::Mem));
}

#[test]
fn tree_ignores_daemon_fields() {
    let text = r#"
cluster  prod
bucket   data
flush_interval  30
admin_token  secret
access_key  AKID
secret_key  SKEY
cors_origin  *
log_file  /tmp/log
log_buffer_size  1000
event_socket  /tmp/events.sock
event_secret  shh
max_readers  16
event_source  tcp:localhost:9090
catalog_path  /tmp/catalog.json
catalog_format  json
catalog_flush_interval  30
recovery_enabled  true
recovery_poll_secs  10
repair_replication_interval  300
repair_replication_batch_size  500
compression  zstd

root  rf=2  listen=0.0.0.0:8000  endpoint=http://10.0.1.10:8000
  raw  /dev/nvme0n1
  raw  /dev/nvme1n1
"#;
    let conf = parse_tree_conf(text).unwrap();
    assert_eq!(conf.cluster_name, "prod");
    assert_eq!(conf.compression.as_deref(), Some("zstd"));
    assert_eq!(conf.root.name, "root");
    assert_eq!(conf.root.replication_factor, 2);
    assert_eq!(conf.root.shards.len(), 2);
}

#[test]
fn tree_find_node() {
    let text = r#"
top  rf=2
  raw  /dev/nvme0n1
  mid  rf=1
    raw  /dev/sda
    leaf  rf=1
      fs  /mnt/data
"#;
    let conf = parse_tree_conf(text).unwrap();
    assert!(conf.find_node("top").is_some());
    assert!(conf.find_node("mid").is_some());
    assert!(conf.find_node("leaf").is_some());
    assert!(conf.find_node("nonexistent").is_none());

    let leaf = conf.find_node("leaf").unwrap();
    assert_eq!(leaf.shards.len(), 1);
}

#[test]
fn tree_is_tree_config() {
    assert!(is_tree_config("root  rf=2\n  raw  /dev/sda\n"));
    assert!(!is_tree_config("shard raw /dev/sda\n"));
    assert!(!is_tree_config("replicas 2\nshard raw /dev/sda\n"));
    // Indented node lines don't count (they need indent 0).
    assert!(!is_tree_config("  child  rf=1\n"));
}

#[test]
fn tree_error_no_nodes() {
    let text = "cluster foo\ncompression zstd\n";
    let err = parse_tree_conf(text).unwrap_err();
    assert!(err.contains("no nodes"), "got: {err}");
}

#[test]
fn tree_error_zero_rf() {
    let text = "root  rf=0\n  raw  /dev/sda\n";
    let err = parse_tree_conf(text).unwrap_err();
    assert!(err.contains("rf must be >= 1"), "got: {err}");
}

#[test]
fn tree_global_defaults() {
    let text = r#"
catalog   json:/tmp/cat.json
read_prefer  ordered
compression  zstd
direct_io    true
size_mb      1024
read_only    true

root  rf=1
  raw  /dev/sda
"#;
    let conf = parse_tree_conf(text).unwrap();
    assert_eq!(conf.catalog.as_deref(), Some("json:/tmp/cat.json"));
    assert_eq!(conf.read_prefer.as_deref(), Some("ordered"));
    assert_eq!(conf.compression.as_deref(), Some("zstd"));
    assert!(conf.direct_io);
    assert_eq!(conf.size_mb, Some(1024));
    assert!(conf.read_only);
}
