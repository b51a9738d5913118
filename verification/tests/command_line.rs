//! The command line.

use shardedobjstr::cli::{
    choose_format, complete_args, is_given, parse_catalog_persistence, parse_flags, CliArgs,
    ViewFormat,
};
use shardedobjstr::commands::{
    check_config, check_cross_verify, choose_reading, compare_copies, count_few, find_copies,
    join_shards, parse_check_args, parse_view_args, report_rows, AutoChoice, CheckedConfig, Command,
    CopyRead, ViewRequest,
};
use shardedobjstr::config::{parse_auto_conf, parse_cluster_conf, parse_tree_conf, tokenize, ShardConf};
use shardedobjstr::diagnostics::{has_errors, validate_cluster_conf, ClusterDiagLevel, PathFacts};
use shardedobjstr::store::ShardedObjectStore;
use shardedobjstr::time::Timestamp;

fn words(s: &str) -> Vec<String> {
    s.split_whitespace().map(|w| w.to_string()).collect()
}

fn args(line: &str, file: Option<&str>) -> Result<CliArgs, String> {
    let args = words(line);
    let flags = parse_flags(&args).map_err(|e| e.message())?;
    complete_args(flags, is_given(&args, "--replicas"), file)
}

#[test]
fn flags_are_read() {
    let f = parse_flags(&words(
        "--shards /a,/b --replicas 2 --min-writes 1 --size 4096 --direct-io --key k --prefix p \
         --to t --from f -l --new-shard n --remove r --catalog json:/c --batch-size 7 \
         --under-replicated --node top --delete-requires-min-writes --config /etc/c",
    ))
    .unwrap();
    assert_eq!(f.shard_paths, vec!["/a", "/b"]);
    assert_eq!((f.replicas, f.min_writes, f.size, f.batch_size), (2, Some(1), Some(4096), Some(7)));
    assert!(f.direct_io && f.long && f.under_replicated && f.delete_requires_min_writes);
    assert_eq!(f.key.as_deref(), Some("k"));
    assert_eq!(f.prefix.as_deref(), Some("p"));
    assert_eq!(f.to.as_deref(), Some("t"));
    assert_eq!(f.from.as_deref(), Some("f"));
    assert_eq!(f.new_shard.as_deref(), Some("n"));
    assert_eq!(f.remove.as_deref(), Some("r"));
    assert_eq!(f.catalog.as_deref(), Some("json:/c"));
    assert_eq!(f.node.as_deref(), Some("top"));
    assert_eq!(f.config.as_deref(), Some("/etc/c"));
    let f = parse_flags(&Vec::new()).unwrap();
    assert_eq!((f.replicas, f.long), (1, false));
}

#[test]
fn shard_paths_are_trimmed_pieces() {
    let f = parse_flags(&vec!["--shards".to_string(), " /a , /b,".to_string()]).unwrap();
    assert_eq!(f.shard_paths, vec!["/a", "/b", ""]);
    let f = parse_flags(&vec!["--shards".to_string(), String::new()]).unwrap();
    assert_eq!(f.shard_paths, vec![""]);
}

#[test]
fn wrong_arguments_are_named() {
    let message = |line: &str| parse_flags(&words(line)).unwrap_err().message();
    assert_eq!(message("--key"), "--key requires a value");
    assert_eq!(message("--bogus"), "unknown arg: --bogus");
    assert_eq!(message("--replicas two"), "invalid --replicas");
    assert_eq!(message("--size -1"), "invalid --size");
    assert_eq!(message("--batch-size x"), "invalid --batch-size");
    assert_eq!(message("--min-writes 1.5"), "invalid --min-writes");
}

#[test]
fn a_configuration_fills_in_what_is_not_given() {
    let file = "replicas 3\nmin_writes 2\ncatalog bin:/c\ndirect_io\nshard raw /a\nshard mem\nshard fs /f\n";
    let a = args("--config x", Some(file)).unwrap();
    assert_eq!((a.flags.replicas, a.flags.min_writes), (3, Some(2)));
    assert_eq!(a.flags.catalog.as_deref(), Some("bin:/c"));
    assert!(a.flags.direct_io);
    assert_eq!(a.shard_confs.len(), 3);
    assert_eq!(a.raw_shard_paths(), vec!["/a"]);
    assert!(a.tree_conf.is_none());
}

#[test]
fn what_is_given_wins_over_the_configuration() {
    let file = "replicas 3\nmin_writes 2\ncatalog bin:/c\nshard raw /a\n";
    let a = args("--config x --replicas 1 --min-writes 1 --catalog none --shards /z", Some(file)).unwrap();
    assert_eq!((a.flags.replicas, a.flags.min_writes), (1, Some(1)));
    assert_eq!(a.flags.catalog.as_deref(), Some("none"));
    assert_eq!(a.raw_shard_paths(), vec!["/z"]);
}

#[test]
fn a_node_of_a_tree_is_chosen_by_name() {
    let file = "catalog json:/c\ntop rf=2\n  raw /a\n  inner rf=1\n    raw /b\n";
    let a = args("--config x", Some(file)).unwrap();
    assert_eq!(a.flags.replicas, 2);
    assert_eq!(a.shard_confs.len(), 2);
    assert!(matches!(&a.shard_confs[1], ShardConf::Node(n) if n == "inner"));
    assert!(a.tree_conf.is_some());
    let a = args("--config x --node inner", Some(file)).unwrap();
    assert_eq!(a.raw_shard_paths(), vec!["/b"]);
    assert_eq!(a.flags.catalog.as_deref(), Some("json:/c"));
    let e = args("--config x --node nobody", Some(file)).unwrap_err();
    assert_eq!(e, "ERROR: node 'nobody' not found in config");
}

#[test]
fn shards_are_needed() {
    assert_eq!(args("", None).unwrap_err(), "--shards or --config required");
    assert_eq!(args("--config x", Some("replicas 2\n")).unwrap_err(), "ERROR: no shards defined");
    assert_eq!(args("--config x", Some("root rf=0\n")).unwrap_err(), "ERROR: node 'root': rf must be >= 1");
}

#[test]
fn a_shard_is_removed_only_if_enough_stay() {
    let a = args("--shards /a,/b,/c,/d --replicas 3", None).unwrap();
    assert_eq!(a.shard_to_remove("/c"), Ok(2));
    assert_eq!(
        a.shard_to_remove("/x"),
        Err("Error: '/x' is not a raw shard in the cluster".to_string()),
    );
    let a = args("--shards /a,/b,/c", None).unwrap();
    assert_eq!(
        a.shard_to_remove("/a"),
        Err("Error: cannot remove shard -- only 2 shards would remain (minimum 3 required).".to_string()),
    );
    let a = args("--shards /a,/b,/c,/d --replicas 4", None).unwrap();
    assert_eq!(
        a.shard_to_remove("/a"),
        Err("Error: cannot remove shard -- 3 remaining shards < replication factor 4.".to_string()),
    );
}

#[test]
fn catalogs_are_named_by_format() {
    assert!(parse_catalog_persistence("none").is_none());
    for (s, json, path) in [
        ("json:/a", true, "/a"),
        ("bin:/b", false, "/b"),
        ("bincode:/c", false, "/c"),
        ("/d", true, "/d"),
    ] {
        let p = parse_catalog_persistence(s).unwrap();
        assert_eq!(p.path(), Some(path));
        assert_eq!(matches!(p, shardedobjstr::persistence::CatalogPersistence::Json { .. }), json);
    }
}

#[test]
fn commands_have_names() {
    assert_eq!(Command::parse("ls"), Some(Command::List));
    assert_eq!(Command::parse("list"), Some(Command::List));
    assert_eq!(Command::parse("del"), Some(Command::Delete));
    assert_eq!(Command::parse("-V"), Some(Command::Version));
    assert_eq!(Command::parse("repair-replication"), Some(Command::RepairReplication));
    assert_eq!(Command::parse("bogus"), None);
}

#[test]
fn the_path_to_check_is_found() {
    assert_eq!(parse_check_args(&words("--config a --config b")), Ok("b".to_string()));
    assert_eq!(parse_check_args(&words("--config")), Err("--config requires a value".to_string()));
    assert_eq!(parse_check_args(&words("x")), Err("unknown arg for check-config: x".to_string()));
    assert_eq!(parse_check_args(&Vec::new()), Err("check-config requires --config <path>".to_string()));
}

#[test]
fn a_tree_is_described() {
    let file = "top rf=3\n  raw /a\n  inner rf=1\n    mem\n  empty rf=1\n";
    let diags = match check_config(file) {
        Ok(CheckedConfig::Tree(diags)) => diags,
        _ => panic!("a tree"),
    };
    let lines: Vec<String> = diags.iter().map(|d| format!("{}{}", d.level.label(), d.message)).collect();
    assert_eq!(
        lines,
        vec![
            "INFOnode 'top': rf=3, 3 shard(s), 2 child(ren)",
            "INFO  node 'inner': rf=1, 1 shard(s), 0 child(ren)",
            "WARN  node 'empty': no shards and no children",
            "INFO  node 'empty': rf=1, 0 shard(s), 0 child(ren)",
        ],
    );
    assert!(!has_errors(&diags));
    assert!(matches!(check_config("shard mem\n"), Ok(CheckedConfig::Flat(_))));
    assert_eq!(check_config("bogus\n").err().unwrap(), format!("PARSE ERROR: {}", parse_cluster_conf("bogus\n").unwrap_err()));
}

#[test]
fn shards_have_labels() {
    let conf = parse_cluster_conf(
        "shard raw /a\nshard fs /f\nshard s3 endpoint=http://e bucket=b\nshard mem\n",
    )
    .unwrap();
    let labels: Vec<String> = conf.shards.iter().map(|s| s.label()).collect();
    assert_eq!(labels, vec!["raw:/a", "fs:/f", "s3:http://e/b", "mem"]);
    assert_eq!(ShardConf::Node("n".to_string()).label(), "node:n");
    let kinds: Vec<&str> = conf.shards.iter().map(|s| s.kind_name()).collect();
    assert_eq!(kinds, vec!["raw", "fs", "s3", "mem"]);
    assert_eq!(conf.shards[2].clone().label(), "s3:http://e/b");
}

#[test]
fn numbers_are_joined_by_commas() {
    assert_eq!(join_shards(&vec![]), "");
    assert_eq!(join_shards(&vec![3]), "3");
    assert_eq!(join_shards(&vec![3, 0, 12]), "3,0,12");
}

#[test]
fn single_copies_are_not_compared() {
    assert_eq!(check_cross_verify(2), Ok(()));
    assert_eq!(
        check_cross_verify(1),
        Err("ERROR: cross-verify requires --replicas >= 2 (got 1)".to_string()),
    );
}

#[test]
fn copies_are_found_by_path() {
    let list = |paths: &[(&str, u64)]| paths.iter().map(|(p, n)| (p.to_string(), *n)).collect::<Vec<_>>();
    let m = find_copies(&vec![list(&[("a", 1), ("b", 2)]), list(&[]), list(&[("b", 3)])]);
    assert_eq!(m.len(), 2);
    assert_eq!(m.get("a"), Some(&vec![(0, 1)]));
    assert_eq!(m.get("b"), Some(&vec![(0, 2), (2, 3)]));
}

#[test]
fn copies_that_differ_are_reported() {
    let copies = vec![(0, 5), (1, 6), (2, 5), (3, 5)];
    let reads = vec![
        CopyRead::Read(0xDEAD),
        CopyRead::ReadError("bad block".to_string()),
        CopyRead::Read(0xBEEF),
        CopyRead::GetError("gone".to_string()),
    ];
    assert_eq!(
        compare_copies(&copies, &reads),
        vec![
            "size mismatch: shard 0 has 5 bytes, shard 1 has 6 bytes",
            "shard 1 read error: bad block",
            "shard 3 get error: gone",
            "CRC mismatch: shard 0 = 0x0000dead, shard 2 = 0x0000beef",
        ],
    );
    let alike = vec![CopyRead::Read(9), CopyRead::Read(9)];
    assert!(compare_copies(&vec![(0, 5), (1, 5)], &alike).is_empty());
    assert!(compare_copies(&vec![(0, 5)], &vec![CopyRead::GetError("gone".to_string())]).is_empty());
}

#[test]
fn the_viewer_is_asked_for_a_file() {
    assert!(matches!(
        parse_view_args(&words("--format bin /c")),
        ViewRequest::View { format: Some(f), path } if f == "bin" && path == "/c"
    ));
    assert!(matches!(parse_view_args(&words("/a -V")), ViewRequest::Version));
    assert!(matches!(
        parse_view_args(&words("--format")),
        ViewRequest::Wrong(e) if e == "--format requires a value: json or bin"
    ));
    assert!(matches!(parse_view_args(&Vec::new()), ViewRequest::Wrong(e) if e.contains("Usage")));
    assert_eq!(choose_format(Some("json"), Some("bin")), ViewFormat::Json);
    assert_eq!(choose_format(None, Some("bin")), ViewFormat::Bincode);
    assert_eq!(choose_format(None, Some("txt")), ViewFormat::Auto);
    assert_eq!(choose_format(None, None), ViewFormat::Auto);
    assert_eq!(choose_format(Some("xml"), None), ViewFormat::Unknown);
    assert_eq!(choose_format(Some("auto"), None), ViewFormat::Auto);
}

#[test]
fn a_file_is_read_as_what_it_holds() {
    assert_eq!(choose_reading(Some(3), true), AutoChoice::Json);
    assert_eq!(choose_reading(Some(0), true), AutoChoice::Bincode);
    assert_eq!(choose_reading(Some(0), false), AutoChoice::Nothing);
    assert_eq!(choose_reading(None, true), AutoChoice::Bincode);
    assert_eq!(choose_reading(None, false), AutoChoice::Neither);
}

#[test]
fn lines_are_split_outside_quotes() {
    assert_eq!(tokenize("a  b\tc").unwrap(), vec!["a", "b", "c"]);
    assert_eq!(tokenize("k=\"a b\"c 'it\"s'").unwrap(), vec!["k=a bc", "it\"s"]);
    assert_eq!(tokenize("").unwrap(), Vec::<String>::new());
    assert_eq!(tokenize("a 'b").unwrap_err(), "unterminated quote in: a 'b");
}

#[test]
fn errors_of_flat_files_name_the_line() {
    let e = |s: &str| parse_cluster_conf(s).unwrap_err();
    assert_eq!(e("\nreplicas\n"), "line 2: 'replicas' requires a value");
    assert_eq!(e("min_writes 0\nshard mem\n"), "line 1: min_writes must be >= 1");
    assert_eq!(e("size_mb big\nshard mem\n"), "line 1: invalid size_mb 'big'");
    assert_eq!(e("min_writes 3\nreplicas 2\nshard mem\n"), "min_writes (3) must be <= replicas (2)");
    assert_eq!(e("shard\n"), "line 1: shard line has no type or path");
    assert_eq!(e("catalog 'x\n"), "line 1: unterminated quote in: catalog 'x");
}

#[test]
fn a_flat_file_is_a_tree_of_one_node() {
    let conf = parse_auto_conf("replicas 2\nshard mem\nshard mem\n").unwrap();
    assert_eq!((conf.root.name.as_str(), conf.root.replication_factor, conf.root.shards.len()), ("root", 2, 2));
    assert!(conf.find_node("root").is_some());
    assert_eq!(parse_auto_conf("top rf=1\n  mem\n").unwrap().root.name, "top");
}

#[test]
fn a_tree_needs_sensible_numbers() {
    assert_eq!(
        parse_tree_conf("top rf=2 min_writes=3\n  mem\n").unwrap_err(),
        "node 'top': min_writes (3) must be <= rf (2)",
    );
    assert_eq!(parse_tree_conf("top rf=x\n  mem\n").unwrap_err(), "node 'top': invalid rf value: x");
    assert_eq!(
        parse_tree_conf("top rf=1\n  bogus\n").unwrap_err(),
        "unknown shard type: 'bogus' (expected raw, fs, s3, mem)",
    );
}

#[test]
fn shards_that_are_not_there_are_reported() {
    let conf = parse_cluster_conf("compression none\nshard raw /nowhere/x\nshard mem\n").unwrap();
    let facts = vec![
        PathFacts { exists: false, parent: Some("/nowhere".to_string()), parent_exists: false, compression_known: true },
        PathFacts { exists: false, parent: None, parent_exists: false, compression_known: true },
    ];
    let diags = validate_cluster_conf(&conf, true, &facts);
    assert!(diags.iter().any(|d| d.message.contains("/nowhere")));
    let unknown = validate_cluster_conf(&conf, false, &facts);
    assert!(has_errors(&unknown));
    assert_eq!(unknown.iter().filter(|d| d.level == ClusterDiagLevel::Error).count() > 0, true);
}

#[test]
fn a_report_marks_objects_with_too_few_copies() {
    let now = Timestamp { secs: 1, nanos: 0 };
    let mut store = ShardedObjectStore::new(3, 2);
    store.catalog_mut().put_at("b".to_string(), vec![2, 0], 7, Some(0xAB), 0, now);
    store.catalog_mut().put_at("a".to_string(), vec![1], 5, None, 0, now);
    let rows = report_rows(&store);
    assert_eq!(rows.len(), 2);
    assert_eq!((rows[0].key.as_str(), rows[0].size, rows[0].copies), ("a", 5, 1));
    assert_eq!((rows[0].crc32c.as_str(), rows[0].shards.as_str(), rows[0].few), ("-", "1", true));
    assert_eq!((rows[1].key.as_str(), rows[1].size, rows[1].copies), ("b", 7, 2));
    assert_eq!(
        (rows[1].crc32c.as_str(), rows[1].shards.as_str(), rows[1].few),
        ("000000ab", "2,0", false),
    );
    assert_eq!(count_few(&rows), 1);
    assert_eq!(store.find_under_replicated(), vec![("a".to_string(), 1)]);
}

#[test]
fn a_line_that_says_nothing_can_stand_anywhere() {
    let lines = ["replicas 2", "min_writes 1", "shard raw /d/a size_mb=4\r", "shard mem"];
    let plain = format!("{:?}", parse_cluster_conf(&lines.join("\n")).unwrap());
    let extra = [
        "",
        "  ",
        "# shard mem",
        "\tshard mem",
        "  shard 'open",
        "cluster rf=7",
        "bucket shards\r",
        "recovery_interval 5",
        "repair_replication_",
        "catalog_path /c",
    ];
    for line in extra {
        for at in 0..=lines.len() {
            let mut all = lines.to_vec();
            all.insert(at, line);
            let joined = all.join("\n");
            assert_eq!(format!("{:?}", parse_cluster_conf(&joined).unwrap()), plain);
            let ended = joined + "\n";
            assert_eq!(format!("{:?}", parse_cluster_conf(&ended).unwrap()), plain);
        }
    }
    assert!(parse_cluster_conf("bucket 'open\nshard mem\n").is_err());
}
