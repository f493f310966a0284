use chrono::{DateTime, Utc};
use zfs_snappers::{parse_listing, str2fs, FsType, Zfs, ZfsError, FS};

fn parse(line: &str, fs_type: FsType) -> FS {
    str2fs(line, fs_type).unwrap()
}

fn get_snaps() -> Vec<FS> {
    vec![
        parse(
            "tank/SRV/www@zfs-snapshot_weekly-2019-12-30_1207\t23234\t-\t-\t1608216421",
            FsType::Snapshot,
        ),
        parse(
            "tank/SRV/www@zfs-snapshot_weekly-2019-12-30_1907\t245643\t-\t-\t1608216921",
            FsType::Snapshot,
        ),
        parse(
            "tank/SRV/www@zfs-snapshot_weekly-2019-12-30_1607\t12340\t-\t-\t1608216821",
            FsType::Snapshot,
        ),
    ]
}

fn www() -> FS {
    parse("tank/SRV/www\t245643\t-\t-\t121212112", FsType::Filesystem)
}

#[test]
fn parse_zfs_output() {
    let fs = parse("tank\t24576\t-\t-\t1608216521", FsType::Filesystem);
    assert_eq!(fs.name, String::from("tank"));
    assert_eq!(fs.written, 24576usize);
    assert!(!fs.snap);
    let fs = parse("tank\t24576\t-\ttrue\t1608216521", FsType::Filesystem);
    assert!(fs.snap);
    assert_eq!(
        fs.date,
        DateTime::<Utc>::from_timestamp(1608216521, 0)
            .unwrap()
            .timestamp()
    );
    let fs = parse("tank\t24576\ttrue\tfalse\t1608216521", FsType::Filesystem);
    assert!(fs.snap);
    let fs = parse("tank\t24576\ttrue\ttrue\t1608216521", FsType::Filesystem);
    assert!(fs.snap);
}

#[test]
fn find_expendable_snapshots_enough() {
    let zfs = Zfs::new(true, "zfs-snapshot", "weekly", 1usize, "2019-12-30_1807");
    let fs_snaps = get_snaps();
    let fs_orig = www();
    let expendables = zfs.find_expendable_snapshots(&fs_orig, &fs_snaps);

    assert_eq!(expendables.len(), 2);
    assert_eq!(
        expendables.first().unwrap().name,
        "tank/SRV/www@zfs-snapshot_weekly-2019-12-30_1207"
    );
    assert_eq!(
        expendables.get(1).unwrap().name,
        "tank/SRV/www@zfs-snapshot_weekly-2019-12-30_1607"
    );
}

#[test]
fn find_expendable_snapshots_to_less() {
    let zfs = Zfs::new(true, "zfs-snapshot", "weekly", 4usize, "2019-12-30_1807");
    let fs_snaps = get_snaps();
    let fs_orig = www();
    let expendables = zfs.find_expendable_snapshots(&fs_orig, &fs_snaps);

    assert!(expendables.is_empty());
}

#[test]
fn parse_fields_of_a_filesystem_line() {
    let fs = parse("tank\t24576\t-\ttrue\t1608216521", FsType::Filesystem);
    assert_eq!(fs.name, "tank");
    assert_eq!(fs.written, 24576);
    assert!(fs.snap);
    assert_eq!(fs.date, 1608216521);
    assert_eq!(fs.fs_type, FsType::Filesystem);
    assert_eq!(fs.fs, "tank");
}

#[test]
fn parse_same_line_twice_gives_equal_records() {
    let line = "tank/a@p_daily-2020\t77\ttrue\t-\t1600000000";
    assert_eq!(
        parse(line, FsType::Snapshot),
        parse(line, FsType::Snapshot)
    );
}

#[test]
fn parse_snapshot_owner_is_text_before_at() {
    let fs = parse("tank/a@p_daily-2020\t77\t-\t-\t1", FsType::Snapshot);
    assert_eq!(fs.fs, "tank/a");
    assert_eq!(fs.fs_type, FsType::Snapshot);
}

#[test]
fn parse_without_optional_fields() {
    let fs = parse("tank\t5", FsType::Filesystem);
    assert_eq!(fs.written, 5);
    assert!(!fs.snap);
    assert_eq!(fs.date, 0);
}

#[test]
fn parse_unreadable_numbers_count_as_zero() {
    let fs = parse("tank\tlots\t-\t-\tyesterday", FsType::Filesystem);
    assert_eq!(fs.written, 0);
    assert_eq!(fs.date, 0);
    let fs = parse("tank\t99999999999999999999999\t-\t-\t-", FsType::Filesystem);
    assert_eq!(fs.written, 0);
    assert_eq!(fs.date, 0);
}

#[test]
fn parse_signs_as_from_str_reads_them() {
    let fs = parse("tank\t+12\t-\t-\t-42", FsType::Filesystem);
    assert_eq!(fs.written, 12);
    assert_eq!(fs.date, -42);
    let fs = parse("tank\t-12\t-\t-\t+", FsType::Filesystem);
    assert_eq!(fs.written, 0);
    assert_eq!(fs.date, 0);
    let fs = parse("tank\t1\t-\t-\t-9223372036854775808", FsType::Filesystem);
    assert_eq!(fs.date, i64::MIN);
    let fs = parse("tank\t18446744073709551615\t-\t-\t9223372036854775808", FsType::Filesystem);
    assert_eq!(fs.written, usize::MAX);
    assert_eq!(fs.date, 0);
}

#[test]
fn parse_flag_needs_exact_true() {
    let fs = parse("tank\t1\tTrue\ttrue \t1", FsType::Filesystem);
    assert!(!fs.snap);
}

#[test]
fn parse_line_without_size_is_malformed() {
    match str2fs("tank", FsType::Filesystem) {
        Err(ZfsError::MalformedRecord(line)) => assert_eq!(line, "tank"),
        other => panic!("unexpected {:?}", other),
    }
}

#[test]
fn parse_listing_skips_empty_lines() {
    let out = "tank\t1\t-\t-\t5\n\ntank/b\t2\ttrue\t-\t6\n";
    let recs = parse_listing(out, FsType::Filesystem).unwrap();
    assert_eq!(recs.len(), 2);
    assert_eq!(recs[0].name, "tank");
    assert_eq!(recs[1].name, "tank/b");
    assert!(recs[1].snap);
}

#[test]
fn parse_listing_reports_malformed_line() {
    match parse_listing("tank\t1\nbroken\n", FsType::Filesystem) {
        Err(ZfsError::MalformedRecord(line)) => assert_eq!(line, "broken"),
        other => panic!("unexpected {:?}", other),
    }
}

#[test]
fn expendable_scenario_keeps_newest() {
    let zfs = Zfs::new(true, "zfs-snapshot", "weekly", 1, "x");
    let snaps = get_snaps();
    let names: Vec<&str> = zfs
        .find_expendable_snapshots(&www(), &snaps)
        .iter()
        .map(|s| s.name.as_str())
        .collect();
    assert_eq!(
        names,
        vec![
            "tank/SRV/www@zfs-snapshot_weekly-2019-12-30_1207",
            "tank/SRV/www@zfs-snapshot_weekly-2019-12-30_1607"
        ]
    );
}

#[test]
fn expendable_keep_zero_takes_all_oldest_first() {
    let zfs = Zfs::new(true, "zfs-snapshot", "weekly", 0, "x");
    let snaps = get_snaps();
    let exp = zfs.find_expendable_snapshots(&www(), &snaps);
    assert_eq!(exp.len(), 3);
    assert_eq!(exp[0].written, 23234);
    assert_eq!(exp[1].written, 12340);
    assert_eq!(exp[2].written, 245643);
}

#[test]
fn expendable_ignores_other_filesystems_and_labels() {
    let zfs = Zfs::new(true, "zfs-snapshot", "weekly", 0, "x");
    let mut snaps = get_snaps();
    snaps.push(parse(
        "tank/SRV/www2@zfs-snapshot_weekly-2019-12-30_1207\t1\t-\t-\t1",
        FsType::Snapshot,
    ));
    snaps.push(parse(
        "tank/SRV/www@zfs-snapshot_daily-2019-12-30_1207\t1\t-\t-\t1",
        FsType::Snapshot,
    ));
    snaps.push(parse(
        "tank/SRV/www@manual\t1\t-\t-\t1",
        FsType::Snapshot,
    ));
    let exp = zfs.find_expendable_snapshots(&www(), &snaps);
    assert_eq!(exp.len(), 3);
    assert!(exp.iter().all(|s| s.fs == "tank/SRV/www"));
}

#[test]
fn expendable_of_no_snapshots_is_empty() {
    let zfs = Zfs::new(true, "zfs-snapshot", "weekly", 0, "x");
    let snaps: Vec<FS> = Vec::new();
    assert!(zfs.find_expendable_snapshots(&www(), &snaps).is_empty());
}

#[test]
fn expendable_ties_broken_by_name() {
    let zfs = Zfs::new(true, "p", "l", 1, "x");
    let snaps = vec![
        parse("fs@p_l-b\t1\t-\t-\t100", FsType::Snapshot),
        parse("fs@p_l-a\t2\t-\t-\t100", FsType::Snapshot),
        parse("fs@p_l-c\t3\t-\t-\t50", FsType::Snapshot),
    ];
    let fs = parse("fs\t0", FsType::Filesystem);
    let exp = zfs.find_expendable_snapshots(&fs, &snaps);
    let names: Vec<&str> = exp.iter().map(|s| s.name.as_str()).collect();
    assert_eq!(names, vec!["fs@p_l-c", "fs@p_l-a"]);
}

#[test]
fn filter_snaps_orders_oldest_first() {
    let zfs = Zfs::new(true, "zfs-snapshot", "weekly", 1, "x");
    let snaps = get_snaps();
    let sorted = zfs.filter_snaps(&www(), &snaps);
    let dates: Vec<i64> = sorted.iter().map(|s| s.date).collect();
    assert_eq!(dates, vec![1608216421, 1608216821, 1608216921]);
}

#[test]
fn snapshot_needed_without_prior_snapshot() {
    let zfs = Zfs::new(true, "zfs-snapshot", "weekly", 1, "x");
    let snaps: Vec<FS> = Vec::new();
    assert!(zfs.next_snapshot_needed(1000, &www(), &snaps));
    assert!(zfs.next_snapshot_needed(0, &www(), &snaps));
}

#[test]
fn snapshot_not_needed_below_min_size() {
    let zfs = Zfs::new(true, "p", "l", 1, "x");
    let snaps = vec![
        parse("fs@p_l-1\t5000\t-\t-\t10", FsType::Snapshot),
        parse("fs@p_l-2\t500\t-\t-\t20", FsType::Snapshot),
    ];
    let fs = parse("fs\t0", FsType::Filesystem);
    assert!(!zfs.next_snapshot_needed(1000, &fs, &snaps));
    assert!(zfs.next_snapshot_needed(499, &fs, &snaps));
    assert!(!zfs.next_snapshot_needed(500, &fs, &snaps));
}

#[test]
fn rotation_decides_per_filesystem() {
    let zfs = Zfs::new(true, "zfs-snapshot", "weekly", 1, "x");
    let snaps = get_snaps();
    let off = www();
    assert!(zfs.rotation(0, &off, &snaps).is_none());
    let on = parse("tank/SRV/www\t1\ttrue\t-\t1", FsType::Filesystem);
    let plan = zfs.rotation(0, &on, &snaps).unwrap();
    assert_eq!(plan.len(), 2);
    assert_eq!(plan[0].written, 23234);
    assert!(zfs.rotation(245643, &on, &snaps).is_none());
}

#[test]
fn sname_composes_prefix_label_and_timestamp() {
    let zfs = Zfs::new(false, "zfs-snappers", "hourly", 8, "2022-01-02-0304");
    assert_eq!(zfs.sname("tank/a", None), "tank/a@zfs-snappers_hourly-2022-01-02-0304");
    assert_eq!(zfs.sname("tank/a", Some("")), "tank/a@zfs-snappers_hourly-");
}

#[test]
fn command_arguments() {
    let zfs = Zfs::new(false, "zfs-snappers", "hourly", 8, "T");
    assert_eq!(
        zfs.list_args(FsType::Snapshot),
        vec![
            "list",
            "-Hp",
            "-o",
            "name,used,com.sun:auto-snapshot,com.sun:auto-snapshot:hourly,creation",
            "-t",
            "snapshot"
        ]
    );
    let fs = parse("tank\t1", FsType::Filesystem);
    assert_eq!(
        zfs.create_snapshot_args(&fs),
        vec!["snapshot", "tank@zfs-snappers_hourly-T"]
    );
    match zfs.remove_snapshot_args(&fs) {
        Err(ZfsError::InternalError(m)) => assert_eq!(m, "Filesystems can't be removed!"),
        other => panic!("unexpected {:?}", other),
    }
    let snap = parse("tank@x\t1", FsType::Snapshot);
    assert_eq!(
        zfs.remove_snapshot_args(&snap).unwrap(),
        vec!["destroy", "tank@x"]
    );
}

#[test]
fn executable_defaults_and_overrides() {
    let zfs = Zfs::new(true, "p", "l", 1, "t");
    assert_eq!(zfs.executable, "zfs");
    assert_eq!(zfs.option_name, "com.sun:auto-snapshot");
    let zfs = zfs.with_executable("/sbin/zfs");
    assert_eq!(zfs.executable, "/sbin/zfs");
    assert_eq!(zfs.label, "l");
    assert!(zfs.pretend);
}

#[test]
fn kind_names() {
    assert_eq!(FsType::Snapshot.as_str(), "snapshot");
    assert_eq!(FsType::Filesystem.as_str(), "filesystem");
}

#[test]
fn io_errors_convert_into_zfs_errors() {
    let e = std::io::Error::new(std::io::ErrorKind::NotFound, "no zfs");
    match ZfsError::from(e) {
        ZfsError::IOError(inner) => assert_eq!(inner.kind(), std::io::ErrorKind::NotFound),
        other => panic!("unexpected {:?}", other),
    }
}
