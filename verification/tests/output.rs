use disko::model::RowOptions;
use disko::mounts::{Filesystem, Inodes};
use disko::output::{
    count, filesystem_details, filesystems_plain, inodes_plain, scan_plain, Align, Table,
};
use disko::path::FilePath;
use disko::size::Unit;
use disko::tree::{DiskEntry, EntryType};

fn tree() -> DiskEntry {
    let mut root = DiskEntry::new("/root", EntryType::Directory);
    let mut big = DiskEntry::new("/root/big", EntryType::Directory);
    big.allocated_size = 750;
    big.apparent_size = 750;
    let mut small = DiskEntry::new("/root/small", EntryType::File);
    small.allocated_size = 250;
    small.apparent_size = 250;
    root.allocated_size = 1000;
    root.apparent_size = 1000;
    root.items = 3;
    root.children = vec![big, small];
    root
}

#[test]
fn plain_output_leads_with_raw_bytes_for_scripts() {
    let tree = tree();
    let text = scan_plain(
        &FilePath::new("/root"),
        &tree,
        &RowOptions::default(),
        Unit::Decimal,
    );

    let first = text.lines().next().unwrap();
    let fields: Vec<&str> = first.split('\t').collect();
    assert_eq!(fields[0], "750");
    assert_eq!(fields[1], "750 B");
    assert_eq!(fields[2], "75%");
    assert_eq!(fields[3], "/root/big");
}

#[test]
fn what_was_folded_away_is_a_line_of_its_own() {
    let mut options = RowOptions::default();
    options.top = Some(1);
    let text = scan_plain(&FilePath::new("/root"), &tree(), &options, Unit::Decimal);
    assert_eq!(
        text,
        "750\t750 B\t75%\t/root/big\n250\t250 B\t25%\t/root (other)\n"
    );
}

#[test]
fn thousands_separators_land_in_the_right_places() {
    assert_eq!(count(0), "0");
    assert_eq!(count(999), "999");
    assert_eq!(count(1_000), "1,000");
    assert_eq!(count(1_448_344), "1,448,344");
}

#[test]
fn tables_align_their_columns() {
    let mut table = Table::new(&[
        ("NAME", Align::Left),
        ("SIZE", Align::Right),
        ("MOUNTED ON", Align::Left),
    ]);
    table.push(vec!["Root".into(), "132 GB".into(), "/".into()]);
    table.push(vec!["backup".into(), "1 GB".into(), "/mnt/backup".into()]);
    let text = table.write();

    // Sizes right-align, and so does their header.
    let lines: Vec<&str> = text.lines().collect();
    assert_eq!(lines[0], "NAME      SIZE  MOUNTED ON");
    assert_eq!(lines[1], "Root    132 GB  /");
    assert_eq!(lines[2], "backup    1 GB  /mnt/backup");
}

#[test]
fn an_empty_filesystem_list_says_so_rather_than_printing_a_bare_header() {
    let text = filesystems_plain(&vec![], Unit::Decimal, false);
    assert_eq!(text.trim(), "no filesystems found");
}

fn disk() -> Filesystem {
    Filesystem {
        name: "Root".to_string(),
        mount_point: FilePath::new("/"),
        device: "/dev/sda1".to_string(),
        fs_type: "ext4".to_string(),
        total: 1_000_000_000,
        used: 250_000_000,
        available: 750_000_000,
        read_only: false,
        removable: true,
        kind: "SSD".to_string(),
        pseudo: false,
        inodes: Some(Inodes {
            total: 2_000_000,
            used: 1_448_344,
            free: 551_656,
        }),
    }
}

#[test]
fn filesystems_are_listed_with_or_without_their_details() {
    let short = filesystems_plain(&vec![disk()], Unit::Decimal, false);
    assert!(short.contains("Root"), "{short}");
    assert!(short.contains("25%"), "{short}");
    assert!(!short.contains("/dev/sda1"), "{short}");
    let long = filesystems_plain(&vec![disk()], Unit::Decimal, true);
    assert!(long.contains("/dev/sda1"), "{long}");
    assert!(long.contains("ext4"), "{long}");
}

#[test]
fn inodes_are_listed_where_they_are_counted() {
    let mut without = disk();
    without.name = "Other".to_string();
    without.inodes = None;
    let text = inodes_plain(&vec![disk(), without]);
    assert!(text.contains("1,448,344"), "{text}");
    assert!(!text.contains("Other"), "{text}");
}

#[test]
fn a_volume_is_described_line_by_line() {
    let text = filesystem_details(&disk(), Unit::Decimal);
    assert!(text.contains("/dev/sda1"), "{text}");
    assert!(text.contains("250 MB"), "{text}");
    assert!(text.contains("yes"), "{text}");
}
