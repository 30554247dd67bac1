use disko::mounts::{
    collect, distinct_mounts, for_path, friendly_name, is_pseudo, is_remote, list, os_stat,
    read_proc_mounts, remote_mount_points, unescape_mount_field, DiskHint, Filesystem, RawStat,
};
use disko::path::FilePath;

#[test]
fn network_filesystems_are_recognised() {
    assert!(is_remote("nfs4"));
    assert!(is_remote("cifs"));
    assert!(is_remote("fuse"));
    assert!(is_remote("fuse.sshfs"));
    // A locally mounted NTFS drive is this machine's storage.
    assert!(!is_remote("fuseblk"));
    assert!(!is_remote("ext4"));
    assert!(!is_remote("apfs"));
    assert!(!is_remote("xfs"));
}

#[test]
fn pseudo_filesystems_are_recognised() {
    let pseudo = |fs_type: &str, mount: &str| is_pseudo(fs_type, &FilePath::new(mount));
    assert!(pseudo("tmpfs", "/tmp"));
    assert!(pseudo("ext4", "/proc/whatever"));
    assert!(pseudo("apfs", "/System/Volumes/Preboot"));
    assert!(!pseudo("apfs", "/System/Volumes/Data"));
    assert!(!pseudo("ext4", "/"));
    assert!(!pseudo("ext4", "/home"));
    // A directory that merely starts with the same letters is not /dev.
    assert!(!pseudo("ext4", "/development"));
}

#[test]
fn names_prefer_a_volume_label_over_a_device() {
    assert_eq!(
        friendly_name(
            Some("Macintosh HD"),
            "/dev/disk3s1s1",
            &FilePath::new("/")
        ),
        "Macintosh HD"
    );
    assert_eq!(
        friendly_name(Some("/dev/sda1"), "/dev/sda1", &FilePath::new("/")),
        "Root"
    );
    assert_eq!(
        friendly_name(None, "/dev/sdb1", &FilePath::new("/mnt/backup")),
        "backup"
    );
    // A fuse driver name is not a label.
    assert_eq!(
        friendly_name(
            Some("blobfuse2"),
            "blobfuse2",
            &FilePath::new("/mnt/remote/session")
        ),
        "session"
    );
}

#[test]
fn mount_fields_are_unescaped() {
    assert_eq!(unescape_mount_field("/mnt/my\\040disk"), "/mnt/my disk");
    assert_eq!(unescape_mount_field("/mnt/plain"), "/mnt/plain");
    assert_eq!(
        unescape_mount_field("/mnt/back\\134slash"),
        "/mnt/back\\slash"
    );
}

const MOUNTS: &str = "\
/dev/sda1 / ext4 rw,relatime 0 0
proc /proc proc rw 0 0
/dev/sdb1 /mnt/my\\040disk xfs ro,noatime 0 0
server:/export /mnt/far nfs4 rw 0 0
/dev/sda1 / ext4 rw,relatime 0 0
";

fn machine() -> Vec<Filesystem> {
    let rows = distinct_mounts(read_proc_mounts(MOUNTS));
    let stat = || {
        Some(os_stat(&RawStat {
            fragment_size: 0,
            block_size: 4096,
            blocks: 1000,
            blocks_free: 400,
            blocks_available: 300,
            files: 50,
            files_free: 20,
            read_only: false,
            device: None,
        }))
    };
    let stats = rows.iter().map(|_| stat()).collect();
    let hints = vec![DiskHint {
        mount_point: FilePath::new("/mnt/my disk"),
        name: "Backup".to_string(),
        kind: "HDD".to_string(),
        removable: true,
    }];
    collect(&rows, &stats, &hints)
}

#[test]
fn listing_hides_pseudo_filesystems_by_default() {
    let visible = list(machine(), false);
    let everything = list(machine(), true);
    assert!(visible.len() <= everything.len());
    assert!(visible.iter().all(|fs| !fs.pseudo));
    assert!(everything.iter().any(|fs| fs.pseudo));
}

#[test]
fn hiding_bookkeeping_keeps_the_rest_as_it_was() {
    let rest: Vec<String> = list(machine(), true)
        .into_iter()
        .filter(|fs| !fs.pseudo)
        .map(|fs| fs.name)
        .collect();
    let visible: Vec<String> = list(machine(), false).into_iter().map(|fs| fs.name).collect();
    assert_eq!(visible, rest);
    assert_eq!(visible.len(), 3);
}

#[test]
fn the_root_filesystem_is_discoverable() {
    let disks = machine();
    let root = &disks[for_path(&disks, &FilePath::new("/")).unwrap()];
    assert!(root.total > 0);
    let fraction = root.used_fraction();
    let fraction = fraction.mantissa as f64 * 2f64.powi(fraction.exponent);
    assert!(fraction >= 0.0 && fraction <= 1.0);
    assert_eq!(fraction, 0.6);
}

#[test]
fn a_path_belongs_to_the_deepest_mount_above_it() {
    let disks = machine();
    let at = |path: &str| for_path(&disks, &FilePath::new(path)).map(|at| disks[at].name.clone());
    assert_eq!(at("/home/someone"), Some("Root".to_string()));
    assert_eq!(at("/mnt/my disk/photos"), Some("Backup".to_string()));
    assert_eq!(at("relative"), None);
}

#[test]
fn mounts_are_read_once_each_with_their_facts() {
    let disks = machine();
    assert_eq!(disks.len(), 4);
    let backup = disks.iter().find(|fs| fs.name == "Backup").unwrap();
    assert_eq!(backup.mount_point.display(), "/mnt/my disk");
    assert!(backup.read_only && backup.removable);
    assert_eq!(backup.kind, "HDD");
    assert_eq!(backup.total, 4_096_000);
    assert_eq!(backup.used, 2_457_600);
    assert_eq!(backup.available, 1_228_800);
    assert_eq!(backup.inodes.unwrap().used, 30);
    let far = remote_mount_points(&disks);
    assert_eq!(far.len(), 1);
    assert_eq!(far[0].display(), "/mnt/far");
}
