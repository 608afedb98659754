//! Where a handoff snapshot is staged.

use ironcache::handoff::{
    available_ram_bytes, handoff_staging_dir, handoff_target, headroom_for, is_path_prefix,
    join_path, path_is_on_tmpfs, unescape_mount_field, usable_tmpfs_base, HandoffTarget,
    DEFAULT_TMPFS_DIR, HANDOFF_SUBDIR, HEADROOM_FLOOR_BYTES,
};

const GIB: u64 = 1024 * 1024 * 1024;

#[test]
fn staging_dir_is_the_subdir_under_the_base() {
    // Both the save target and the load resolver derive the SAME path from this helper.
    assert_eq!(
        handoff_staging_dir("/dev/shm"),
        format!("/dev/shm/{HANDOFF_SUBDIR}")
    );
    assert!(
        handoff_target(
            GIB,
            Some(8 * GIB),
            HEADROOM_FLOOR_BYTES,
            DEFAULT_TMPFS_DIR
        ) == HandoffTarget::Tmpfs(handoff_staging_dir(DEFAULT_TMPFS_DIR))
    );
}

#[test]
fn path_is_on_tmpfs_uses_the_longest_matching_mount() {
    // A synthetic /proc/mounts: / is ext4, /dev is devtmpfs, /dev/shm is tmpfs, /mnt/ram is ramfs.
    let mounts = "\
/dev/sda1 / ext4 rw 0 0
devtmpfs /dev devtmpfs rw 0 0
tmpfs /dev/shm tmpfs rw 0 0
ramdisk /mnt/ram ramfs rw 0 0
/dev/sdb1 /data ext4 rw 0 0
";
    // /dev/shm + a not-yet-created subdir of it resolve to the tmpfs mount (longest prefix wins
    // over /dev devtmpfs and / ext4).
    assert!(path_is_on_tmpfs("/dev/shm", mounts));
    assert!(path_is_on_tmpfs(
        "/dev/shm/ironcache-handoff",
        mounts
    ));
    // ramfs also counts as RAM-backed.
    assert!(path_is_on_tmpfs("/mnt/ram/x", mounts));
    // A disk mount + a bare root path are NOT tmpfs (data_dir fallback).
    assert!(!path_is_on_tmpfs("/data/snap", mounts));
    assert!(!path_is_on_tmpfs("/var/lib/ironcache", mounts));
    // A sibling of /dev/shm that only shares the /dev prefix is devtmpfs, not tmpfs.
    assert!(!path_is_on_tmpfs("/dev/shmm", mounts));
}

#[test]
fn handoff_target_picks_tmpfs_only_when_it_fits_with_headroom() {
    let tmpfs = DEFAULT_TMPFS_DIR;

    // 1 GiB snapshot, 8 GiB free, 512 MiB headroom -> fits -> tmpfs (in the node subdir).
    assert_eq!(
        handoff_target(GIB, Some(8 * GIB), HEADROOM_FLOOR_BYTES, tmpfs),
        HandoffTarget::Tmpfs(format!("{tmpfs}/ironcache-handoff"))
    );

    // 6 GiB snapshot, 6 GiB free -> snapshot alone fits but NOT with headroom -> data_dir.
    assert_eq!(
        handoff_target(6 * GIB, Some(6 * GIB), HEADROOM_FLOOR_BYTES, tmpfs),
        HandoffTarget::DataDir
    );

    // Snapshot larger than free RAM -> data_dir (would OOM on tmpfs).
    assert_eq!(
        handoff_target(10 * GIB, Some(4 * GIB), HEADROOM_FLOOR_BYTES, tmpfs),
        HandoffTarget::DataDir
    );

    // Unknown RAM -> never gamble -> data_dir.
    assert_eq!(
        handoff_target(GIB, None, HEADROOM_FLOOR_BYTES, tmpfs),
        HandoffTarget::DataDir
    );

    // Exact fit (need == avail) is allowed (<=): 1 GiB + 512 MiB headroom == 1.5 GiB free.
    assert_eq!(
        handoff_target(
            GIB,
            Some(GIB + HEADROOM_FLOOR_BYTES),
            HEADROOM_FLOOR_BYTES,
            tmpfs
        ),
        HandoffTarget::Tmpfs(format!("{tmpfs}/ironcache-handoff"))
    );

    // Overflow-safe: a colossal snapshot + headroom cannot wrap to a small "fits" value.
    assert_eq!(
        handoff_target(u64::MAX, Some(u64::MAX), HEADROOM_FLOOR_BYTES, tmpfs),
        HandoffTarget::DataDir
    );
}

#[test]
fn headroom_scales_with_the_snapshot_above_a_floor() {
    // Small snapshot -> the floor.
    assert_eq!(headroom_for(0), HEADROOM_FLOOR_BYTES);
    assert_eq!(headroom_for(GIB), HEADROOM_FLOOR_BYTES); // 256 MiB < 512 MiB floor
    // Large snapshot -> 25% of it (above the floor).
    assert_eq!(headroom_for(40 * GIB), 10 * GIB);
}


/// The mount table of a Linux host.
const MOUNTS: &str = "\
/dev/sda1 / ext4 rw 0 0
devtmpfs /dev devtmpfs rw 0 0
tmpfs /dev/shm tmpfs rw 0 0
";

#[test]
fn usable_tmpfs_base_accepts_dev_shm_on_linux() {
    assert_eq!(
        usable_tmpfs_base(None, Some(MOUNTS)).as_deref(),
        Some(DEFAULT_TMPFS_DIR),
        "the default /dev/shm resolves to a usable tmpfs base on Linux"
    );
    assert_eq!(
        usable_tmpfs_base(Some("/ic-no-such-root-9c3/handoff"), Some(MOUNTS)),
        None,
        "an unmounted / non-tmpfs base is rejected (data_dir fallback)"
    );
    // No mount table: tmpfs staging is unavailable.
    assert_eq!(usable_tmpfs_base(None, None), None);
}

#[test]
fn available_ram_is_some_on_linux_none_elsewhere() {
    let meminfo = "MemTotal:       16303420 kB\nMemFree:          514048 kB\nMemAvailable:    8192 kB\n";
    let bytes = available_ram_bytes(Some(meminfo)).expect("MemAvailable is stated");
    assert!(bytes > 0, "MemAvailable should be a positive byte count");
    assert_eq!(bytes, 8192 * 1024);
    assert!(
        available_ram_bytes(None).is_none(),
        "no memory information returns None (guard falls back to data_dir)"
    );
}

#[test]
fn memory_information_that_says_nothing_is_none() {
    assert_eq!(available_ram_bytes(Some("MemTotal: 5 kB\n")), None);
    assert_eq!(available_ram_bytes(Some("MemAvailable:\n")), None);
    assert_eq!(available_ram_bytes(Some("MemAvailable: many kB\n")), None);
    // A count of kilobytes that overflows as bytes is no count.
    assert_eq!(
        available_ram_bytes(Some("MemAvailable: 18446744073709551615 kB\n")),
        None
    );
}

#[test]
fn escaped_mount_points_are_read() {
    assert_eq!(unescape_mount_field("/mnt/with\\040space"), "/mnt/with space");
    assert_eq!(unescape_mount_field("/mnt/tab\\011x"), "/mnt/tab\tx");
    assert_eq!(unescape_mount_field("/mnt/plain"), "/mnt/plain");
    assert_eq!(unescape_mount_field("a\\9"), "a\\9");
    let mounts = "tmpfs /mnt/a\\040b tmpfs rw 0 0\n";
    assert!(path_is_on_tmpfs("/mnt/a b/x", mounts));
    assert!(!path_is_on_tmpfs("/mnt/a", mounts));
}

#[test]
fn a_later_mount_of_the_same_point_wins() {
    let mounts = "tmpfs /x tmpfs rw 0 0\n/dev/sda1 /x ext4 rw 0 0\n";
    assert!(!path_is_on_tmpfs("/x/y", mounts));
}

#[test]
fn prefixes_stop_at_a_separator() {
    let c = |s: &str| s.chars().collect::<Vec<char>>();
    assert!(is_path_prefix(&c("/"), &c("/a")));
    assert!(is_path_prefix(&c("/a"), &c("/a")));
    assert!(is_path_prefix(&c("/a"), &c("/a/b")));
    assert!(!is_path_prefix(&c("/a"), &c("/ab")));
    assert!(!is_path_prefix(&c("/a/b"), &c("/a")));
}

#[test]
fn paths_are_joined_with_one_separator() {
    assert_eq!(join_path("/data", "x"), "/data/x");
    assert_eq!(join_path("/data/", "x"), "/data/x");
    assert_eq!(join_path("", "x"), "x");
}

#[test]
fn staging_in_ram_keeps_the_headroom() {
    // 40 GiB need 10 GiB more; one byte less is too little.
    let snapshot = 40 * GIB;
    let headroom = headroom_for(snapshot);
    assert_eq!(
        handoff_target(snapshot, Some(50 * GIB), headroom, "/dev/shm"),
        HandoffTarget::Tmpfs("/dev/shm/ironcache-handoff".to_owned())
    );
    assert_eq!(
        handoff_target(snapshot, Some(50 * GIB - 1), headroom, "/dev/shm"),
        HandoffTarget::DataDir
    );
}

#[test]
fn only_escapes_of_a_mount_point_are_replaced() {
    assert_eq!(unescape_mount_field("/mnt/\u{e9}\\040d"), "/mnt/\u{e9} d");
    assert_eq!(unescape_mount_field("/mnt/\u{e9}\\9"), "/mnt/\u{e9}\\9");
    assert_eq!(unescape_mount_field("/a\\134b\\043"), "/a\\b#");
    // Escapes that spell the bytes of a character.
    assert_eq!(unescape_mount_field("/\u{e9}/\\303\\251"), "/\u{e9}/\u{e9}");
    assert_eq!(unescape_mount_field("/\\377"), "/\u{fffd}");
    // A sign is no digit, three digits are needed, and a byte goes up to 255.
    assert_eq!(unescape_mount_field("/a\\+40b"), "/a\\+40b");
    assert_eq!(unescape_mount_field("/a\\04"), "/a\\04");
    assert_eq!(unescape_mount_field("/a\\400b"), "/a\\400b");
    let mounts = "tmpfs /mnt/\u{e9}\\040d tmpfs rw 0 0\n";
    assert!(path_is_on_tmpfs("/mnt/\u{e9} d/x", mounts));
}
