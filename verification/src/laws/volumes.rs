//! Which filesystems there are, how full they are, and which of them count.

use vstd::prelude::*;
use vstd::utf8::encode_utf8;
use crate::mounts;
use crate::mounts::{DiskFacts, Hint, Mount, RawStat, Stat, Volume};
use crate::order;
use crate::path;
use crate::strings;

verus! {

/// A filesystem's figures are its blocks in bytes: a fragment each, or a block where it has no
/// fragments. What is used is what is not free, and what is available is what is left to anyone.
pub proof fn blocks_are_counted_in_bytes(raw: RawStat)
    ensures
        ({
            let stat = mounts::in_bytes(raw);
            let unit = if raw.fragment_size > 0 {
                raw.fragment_size
            } else {
                raw.block_size
            };
            let (total, free) = (
                (raw.blocks * unit) % 0x1_0000_0000_0000_0000,
                (raw.blocks_free * unit) % 0x1_0000_0000_0000_0000,
            );
            &&& stat.total == total
            &&& stat.used == if total > free {
                total - free
            } else {
                0
            }
            &&& stat.available == (raw.blocks_available * unit) % 0x1_0000_0000_0000_0000
            &&& stat.read_only == raw.read_only
            &&& stat.inodes is Some <==> raw.files > 0
            &&& stat.inodes matches Some(inodes) ==> inodes.total == raw.files && inodes.free
                == raw.files_free && inodes.used == if raw.files > raw.files_free {
                raw.files - raw.files_free
            } else {
                0
            }
        }),
{
}

/// What is mounted is described by what was read of it: its figures from the filesystem, its kind
/// and whether it can be taken out from the disk that it is on. It is read-only where either the
/// filesystem or the mount says so.
pub proof fn mounts_are_what_was_read(row: Mount, stat: Option<Stat>, hint: Option<Hint>)
    ensures
        ({
            let volume = mounts::assembled(row, stat, hint);
            &&& volume.mount_point == row.mount_point
            &&& volume.device == row.device
            &&& volume.fs_type == row.fs_type
            &&& stat matches Some(stat) ==> {
                &&& volume.total == stat.total
                &&& volume.used == stat.used
                &&& volume.available == stat.available
                &&& volume.inodes == stat.inodes
                &&& stat.read_only ==> volume.read_only
            }
            &&& stat is None ==> {
                &&& volume.total == 0 && volume.used == 0 && volume.available == 0
                &&& volume.inodes is None
            }
            &&& strings::split_at_char(row.options, ',').contains("ro"@) ==> volume.read_only
            &&& stat is None && !strings::split_at_char(row.options, ',').contains("ro"@)
                ==> !volume.read_only
            &&& hint matches Some(hint) ==> volume.removable == hint.removable && volume.kind
                == hint.kind
            &&& hint is None ==> !volume.removable && volume.kind == "Unknown"@
        }),
{
}

/// Whether a type is one of the kernel's own bookkeeping.
pub open spec fn is_kernel_type(fs_type: Seq<char>) -> bool {
    ||| fs_type == "autofs"@
    ||| fs_type == "binfmt_misc"@
    ||| fs_type == "bpf"@
    ||| fs_type == "cgroup"@
    ||| fs_type == "cgroup2"@
    ||| fs_type == "configfs"@
    ||| fs_type == "debugfs"@
    ||| fs_type == "devfs"@
    ||| fs_type == "devpts"@
    ||| fs_type == "devtmpfs"@
    ||| fs_type == "efivarfs"@
    ||| fs_type == "fuse.gvfsd-fuse"@
    ||| fs_type == "fuse.portal"@
    ||| fs_type == "fusectl"@
    ||| fs_type == "hugetlbfs"@
    ||| fs_type == "mqueue"@
    ||| fs_type == "nsfs"@
    ||| fs_type == "overlay"@
    ||| fs_type == "proc"@
    ||| fs_type == "pstore"@
    ||| fs_type == "ramfs"@
    ||| fs_type == "rpc_pipefs"@
    ||| fs_type == "securityfs"@
    ||| fs_type == "selinuxfs"@
    ||| fs_type == "squashfs"@
    ||| fs_type == "sysfs"@
    ||| fs_type == "tmpfs"@
    ||| fs_type == "tracefs"@
}

/// Whether a place is one that the system keeps to itself.
pub open spec fn is_system_place(mount: Seq<char>) -> bool {
    ||| "/System/Volumes/"@.is_prefix_of(mount) && mount != "/System/Volumes/Data"@
    ||| mount == "/proc"@ || ("/proc"@ + "/"@).is_prefix_of(mount)
    ||| mount == "/sys"@ || ("/sys"@ + "/"@).is_prefix_of(mount)
    ||| mount == "/dev"@ || ("/dev"@ + "/"@).is_prefix_of(mount)
    ||| mount == "/run"@ || ("/run"@ + "/"@).is_prefix_of(mount)
    ||| mount == "/snap"@ || ("/snap"@ + "/"@).is_prefix_of(mount)
    ||| mount == "/var/snap"@ || ("/var/snap"@ + "/"@).is_prefix_of(mount)
}

/// Bookkeeping is told by the type or by the place, and by nothing else.
pub proof fn bookkeeping_is_told_by_type_or_place(fs_type: Seq<char>, mount: Seq<char>)
    ensures
        mounts::is_bookkeeping(fs_type, mount) <==> is_kernel_type(fs_type) || is_system_place(
            mount,
        ),
{
    let types = mounts::pseudo_types();
    let places = mounts::pseudo_prefixes();
    assert(types[0] == "autofs");
    assert(types[1] == "binfmt_misc");
    assert(types[2] == "bpf");
    assert(types[3] == "cgroup");
    assert(types[4] == "cgroup2");
    assert(types[5] == "configfs");
    assert(types[6] == "debugfs");
    assert(types[7] == "devfs");
    assert(types[8] == "devpts");
    assert(types[9] == "devtmpfs");
    assert(types[10] == "efivarfs");
    assert(types[11] == "fuse.gvfsd-fuse");
    assert(types[12] == "fuse.portal");
    assert(types[13] == "fusectl");
    assert(types[14] == "hugetlbfs");
    assert(types[15] == "mqueue");
    assert(types[16] == "nsfs");
    assert(types[17] == "overlay");
    assert(types[18] == "proc");
    assert(types[19] == "pstore");
    assert(types[20] == "ramfs");
    assert(types[21] == "rpc_pipefs");
    assert(types[22] == "securityfs");
    assert(types[23] == "selinuxfs");
    assert(types[24] == "squashfs");
    assert(types[25] == "sysfs");
    assert(types[26] == "tmpfs");
    assert(types[27] == "tracefs");
    assert(places[0] == "/proc");
    assert(places[1] == "/sys");
    assert(places[2] == "/dev");
    assert(places[3] == "/run");
    assert(places[4] == "/snap");
    assert(places[5] == "/var/snap");
    assert(types.len() == 28 && places.len() == 6);
    if is_kernel_type(fs_type) {
        assert(strings::is_one_of(fs_type, types));
    }
}

/// Whether a type is that of a network filesystem.
pub open spec fn is_network_type(fs_type: Seq<char>) -> bool {
    ||| fs_type == "9p"@
    ||| fs_type == "afpfs"@
    ||| fs_type == "afs"@
    ||| fs_type == "beegfs"@
    ||| fs_type == "ceph"@
    ||| fs_type == "cifs"@
    ||| fs_type == "curlftpfs"@
    ||| fs_type == "davfs"@
    ||| fs_type == "ftpfs"@
    ||| fs_type == "fuse"@
    ||| fs_type == "fuse.rclone"@
    ||| fs_type == "fuse.s3fs"@
    ||| fs_type == "fuse.sshfs"@
    ||| fs_type == "gfs2"@
    ||| fs_type == "glusterfs"@
    ||| fs_type == "lustre"@
    ||| fs_type == "ncpfs"@
    ||| fs_type == "nfs"@
    ||| fs_type == "nfs4"@
    ||| fs_type == "smb2"@
    ||| fs_type == "smb3"@
    ||| fs_type == "smbfs"@
    ||| fs_type == "sshfs"@
    ||| fs_type == "webdav"@
    ||| "fuse."@.is_prefix_of(fs_type)
}

/// A network filesystem is told by its type.
pub proof fn networks_are_told_by_type(fs_type: Seq<char>)
    ensures
        mounts::is_elsewhere(fs_type) <==> is_network_type(fs_type),
{
    let types = mounts::remote_types();
    assert(types[0] == "9p");
    assert(types[1] == "afpfs");
    assert(types[2] == "afs");
    assert(types[3] == "beegfs");
    assert(types[4] == "ceph");
    assert(types[5] == "cifs");
    assert(types[6] == "curlftpfs");
    assert(types[7] == "davfs");
    assert(types[8] == "ftpfs");
    assert(types[9] == "fuse");
    assert(types[10] == "fuse.rclone");
    assert(types[11] == "fuse.s3fs");
    assert(types[12] == "fuse.sshfs");
    assert(types[13] == "gfs2");
    assert(types[14] == "glusterfs");
    assert(types[15] == "lustre");
    assert(types[16] == "ncpfs");
    assert(types[17] == "nfs");
    assert(types[18] == "nfs4");
    assert(types[19] == "smb2");
    assert(types[20] == "smb3");
    assert(types[21] == "smbfs");
    assert(types[22] == "sshfs");
    assert(types[23] == "webdav");
    assert(types.len() == 24);
    if is_network_type(fs_type) && !"fuse."@.is_prefix_of(fs_type) {
        assert(strings::is_one_of(fs_type, types));
    }
}

/// The places that a scan stays out of are the mount points of network filesystems: all of them, and
/// no others.
pub proof fn network_mounts_are_found(all: Seq<Volume>, place: Seq<u8>)
    ensures
        mounts::remote_points(all).contains(place) <==> exists|i: int|
            0 <= i < all.len() && (#[trigger] all[i]).mount_point == place && is_network_type(
                all[i].fs_type,
            ),
    decreases all.len(),
{
    if all.len() > 0 {
        let front = all.drop_last();
        let before = mounts::remote_points(front);
        let points = mounts::remote_points(all);
        let last = all.last();
        network_mounts_are_found(front, place);
        networks_are_told_by_type(last.fs_type);
        if points.contains(place) {
            let k = choose|k: int| 0 <= k < points.len() && points[k] == place;
            if k < before.len() {
                assert(before[k] == place);
                let i = choose|i: int|
                    0 <= i < front.len() && (#[trigger] front[i]).mount_point == place
                        && is_network_type(front[i].fs_type);
                assert(all[i] == front[i]);
            } else {
                assert(all[all.len() - 1].mount_point == place);
            }
        }
        if exists|i: int|
            0 <= i < all.len() && (#[trigger] all[i]).mount_point == place && is_network_type(
                all[i].fs_type,
            ) {
            let i = choose|i: int|
                0 <= i < all.len() && (#[trigger] all[i]).mount_point == place && is_network_type(
                    all[i].fs_type,
                );
            if i < front.len() {
                assert(front[i] == all[i]);
                assert(before.contains(place));
                let k = choose|k: int| 0 <= k < before.len() && before[k] == place;
                assert(points[k] == place);
            } else {
                assert(points[points.len() - 1] == place);
            }
        }
    }
}

/// A listing shows every filesystem that holds something and is no bookkeeping, or all of them where
/// that is asked for; bookkeeping comes last, and otherwise the larger comes first.
pub proof fn disks_are_listed_by_size(all: Seq<Volume>, include_pseudo: bool)
    ensures
        ({
            let list = mounts::arranged(all, include_pseudo);
            &&& forall|fs: Volume| #[trigger]
                list.contains(fs) <==> all.contains(fs) && (include_pseudo || (!fs.pseudo
                    && fs.total > 0))
            &&& forall|i: int, j: int|
                0 <= i < j < list.len() ==> {
                    ||| !(#[trigger] list[i]).pseudo && (#[trigger] list[j]).pseudo
                    ||| list[i].pseudo == list[j].pseudo && list[i].total >= list[j].total
                }
        }),
{
    let shown = mounts::shown_volumes(all, include_pseudo);
    let less = |a: Volume, b: Volume| mounts::listed_before(a, b);
    let list = mounts::arranged(all, include_pseudo);
    let keep = |fs: Volume| !fs.pseudo && fs.total > 0;
    mounts::listing_is_an_order();
    order::sort_orders(shown, less);
    order::sort_is_a_permutation(shown, less);
    order::sort_keeps_members(shown, less);
    assert forall|fs: Volume| #[trigger] list.contains(fs) <==> all.contains(fs) && (include_pseudo
        || (!fs.pseudo && fs.total > 0)) by {
        if !include_pseudo {
            if shown.contains(fs) {
                let k = choose|k: int| 0 <= k < shown.len() && shown[k] == fs;
                all.lemma_filter_pred(keep, k);
                all.lemma_filter_contains_rev(keep, fs);
            }
            if all.contains(fs) && keep(fs) {
                let k = choose|k: int| 0 <= k < all.len() && all[k] == fs;
                all.lemma_filter_contains(keep, k);
            }
        }
    }
    assert forall|i: int, j: int| 0 <= i < j < list.len() implies {
        ||| !(#[trigger] list[i]).pseudo && (#[trigger] list[j]).pseudo
        ||| list[i].pseudo == list[j].pseudo && list[i].total >= list[j].total
    } by {
        assert(!less(list[j], list[i]));
    }
}

/// Whether one of some mounts is of a device.
pub open spec fn has_device(rows: Seq<Mount>, device: Seq<char>) -> bool {
    exists|i: int| 0 <= i < rows.len() && (#[trigger] rows[i]).device == device
}

/// A disk that is mounted in several places is listed once: of two rows that are kept no later one
/// has the device of an earlier one, and every row that is kept was there.
pub proof fn each_device_is_listed_once(rows: Seq<Mount>)
    ensures
        ({
            let kept = mounts::distinct(rows);
            &&& forall|i: int, j: int|
                0 <= i < j < kept.len() && "/dev/"@.is_prefix_of((#[trigger] kept[j]).device) ==> (
                #[trigger] kept[i]).device != kept[j].device
            &&& forall|i: int| 0 <= i < kept.len() ==> rows.contains(#[trigger] kept[i])
        }),
    decreases rows.len(),
{
    if rows.len() > 0 {
        let front = rows.drop_last();
        let before = mounts::distinct(front);
        let kept = mounts::distinct(rows);
        let end = rows.len() - 1;
        each_device_is_listed_once(front);
        assert forall|i: int| 0 <= i < kept.len() implies rows.contains(#[trigger] kept[i]) by {
            if i < before.len() {
                assert(kept[i] == before[i]);
                let k = choose|k: int| 0 <= k < front.len() && front[k] == before[i];
                assert(rows[k] == before[i]);
            } else {
                assert(kept[i] == rows[end]);
            }
        }
        assert forall|i: int, j: int|
            0 <= i < j < kept.len() && "/dev/"@.is_prefix_of((#[trigger] kept[j]).device) implies (
        #[trigger] kept[i]).device != kept[j].device by {
            assert(kept[i] == before[i]);
            if j < before.len() {
                assert(kept[j] == before[j]);
            } else {
                let k = choose|k: int| 0 <= k < front.len() && front[k] == before[i];
                assert(rows[k] == before[i]);
            }
        }
    }
}

/// No device is lost on that account, and what is no disk is never left out.
pub proof fn no_device_is_left_out(rows: Seq<Mount>, k: int)
    requires
        0 <= k < rows.len(),
    ensures
        has_device(mounts::distinct(rows), rows[k].device),
        !"/dev/"@.is_prefix_of(rows[k].device) ==> mounts::distinct(rows).contains(rows[k]),
    decreases rows.len(),
{
    let front = rows.drop_last();
    let before = mounts::distinct(front);
    let kept = mounts::distinct(rows);
    let end = rows.len() - 1;
    if k < end {
        assert(front[k] == rows[k]);
        no_device_is_left_out(front, k);
        let i = choose|i: int|
            0 <= i < before.len() && (#[trigger] before[i]).device == front[k].device;
        assert(kept[i] == before[i]);
        if before.contains(rows[k]) {
            let m = choose|m: int| 0 <= m < before.len() && before[m] == rows[k];
            assert(kept[m] == rows[k]);
        }
    } else if mounts::repeats(rows, end) {
        let j = choose|j: int| 0 <= j < end && (#[trigger] rows[j]).device == rows[end].device;
        assert(front[j] == rows[j]);
        no_device_is_left_out(front, j);
        let i = choose|i: int|
            0 <= i < before.len() && (#[trigger] before[i]).device == front[j].device;
        assert(kept[i] == before[i]);
    } else {
        assert(kept[kept.len() - 1] == rows[end]);
    }
}

/// A path in a mount table is written with its blanks and backslashes as three octal digits, which
/// are read back as the byte that they stand for; what is not written so is left as it is.
pub proof fn escapes_are_read_back(a: u8, b: u8, c: u8, rest: Seq<char>, plain: char)
    requires
        a <= 3,
        b <= 7,
        c <= 7,
        plain != '\\',
    ensures
        mounts::unescaped(
            seq!['\\', (48 + a) as char, (48 + b) as char, (48 + c) as char] + rest,
        ) == seq![(a * 64 + b * 8 + c) as char] + mounts::unescaped(rest),
        mounts::unescaped(seq![plain] + rest) == seq![plain] + mounts::unescaped(rest),
{
    let field = seq!['\\', (48 + a) as char, (48 + b) as char, (48 + c) as char] + rest;
    assert(field.skip(4) =~= rest);
    assert((seq![plain] + rest).skip(1) =~= rest);
}

/// A disk goes by its label, where that is no path and not just the device again; the root goes by
/// `Root`, and the rest by the last part of where it is mounted.
pub proof fn disks_have_readable_names(
    hint: Option<Seq<char>>,
    device: Seq<char>,
    mount_point: Seq<u8>,
)
    ensures
        ({
            let label = if hint is Some {
                strings::trimmed(hint->0)
            } else {
                Seq::empty()
            };
            let usable = label.len() > 0 && label[0] != '/' && label != device;
            let name = mounts::volume_name(hint, device, mount_point);
            &&& usable ==> name == label
            &&& !usable && path::same_place(mount_point, encode_utf8("/"@)) ==> name == "Root"@
            &&& !usable && !path::same_place(mount_point, encode_utf8("/"@))
                && path::file_name(mount_point) is Some ==> name == strings::lossy(
                path::file_name(mount_point)->0,
            )
        }),
{
}

proof fn words_grow(text: Seq<char>, word: Seq<char>)
    requires
        forall|i: int| 0 <= i < word.len() ==> !strings::is_blank(#[trigger] word[i]),
    ensures
        ({
            let (done, open) = strings::words_and_rest(text);
            strings::words_and_rest(text + word) == (done, open + word)
        }),
    decreases word.len(),
{
    let (done, open) = strings::words_and_rest(text);
    if word.len() == 0 {
        assert(text + word =~= text);
        assert(open + word =~= open);
    } else {
        let front = word.drop_last();
        assert forall|i: int| 0 <= i < front.len() implies !strings::is_blank(
            #[trigger] front[i],
        ) by {
            assert(front[i] == word[i]);
        }
        words_grow(text, front);
        assert(!strings::is_blank(word[word.len() - 1]));
        assert((text + word).drop_last() =~= text + front);
        assert((open + front).push(word.last()) =~= open + word);
    }
}

proof fn a_blank_ends_a_word(text: Seq<char>, word: Seq<char>)
    requires
        word.len() > 0,
        forall|i: int| 0 <= i < word.len() ==> !strings::is_blank(#[trigger] word[i]),
        strings::words_and_rest(text).1.len() == 0,
    ensures
        strings::words_and_rest(text + word + seq![' ']) == (
            strings::words_and_rest(text).0.push(word),
            Seq::<char>::empty(),
        ),
{
    words_grow(text, word);
    let (done, open) = strings::words_and_rest(text);
    assert(open + word =~= word);
    assert((text + word + seq![' ']).drop_last() =~= text + word);
}

/// Whether a field of a line has no white space in it.
pub open spec fn is_field(text: Seq<char>) -> bool {
    text.len() > 0 && forall|i: int|
        0 <= i < text.len() ==> !strings::is_blank(#[trigger] text[i])
}

/// A line of the mount table gives the device, the place, the type and the options, in that order.
pub proof fn mount_lines_have_four_fields(
    device: Seq<char>,
    place: Seq<char>,
    fs_type: Seq<char>,
    options: Seq<char>,
)
    requires
        is_field(device),
        is_field(place),
        is_field(fs_type),
        is_field(options),
    ensures
        mounts::mount_in(
            device + seq![' '] + place + seq![' '] + fs_type + seq![' '] + options,
        ) == Some(
            Mount {
                device: mounts::unescaped(device),
                mount_point: encode_utf8(mounts::unescaped(place)),
                fs_type: mounts::unescaped(fs_type),
                options,
            },
        ),
{
    let none = Seq::<char>::empty();
    assert(strings::words_and_rest(none) == (Seq::<Seq<char>>::empty(), none));
    a_blank_ends_a_word(none, device);
    assert(none + device + seq![' '] =~= device + seq![' ']);
    let one = device + seq![' '];
    a_blank_ends_a_word(one, place);
    let two = one + place + seq![' '];
    a_blank_ends_a_word(two, fs_type);
    let three = two + fs_type + seq![' '];
    words_grow(three, options);
    let words = strings::words_of(three + options);
    assert(none + options =~= options);
    assert(words.len() == 4);
    assert(words[0] == device && words[1] == place && words[2] == fs_type && words[3] == options);
}

/// Lines that are not of the mount table are passed over, and the rest keep their order.
pub proof fn mounts_are_read_line_by_line(lines: Seq<Seq<char>>, line: Seq<char>)
    ensures
        mounts::mount_in(line) matches Some(mount) ==> mounts::mounts_in(lines.push(line))
            == mounts::mounts_in(lines).push(mount),
        mounts::mount_in(line) is None ==> mounts::mounts_in(lines.push(line))
            == mounts::mounts_in(lines),
        strings::words_of(line).len() < 3 ==> mounts::mount_in(line) is None,
        mounts::mounts_in(Seq::empty()).len() == 0,
{
    assert(lines.push(line).drop_last() =~= lines);
}

/// A disk that the system describes is as full as the filesystem says, or takes up what is not
/// available where the filesystem says nothing.
pub proof fn disks_are_as_described(disk: DiskFacts, stat: Option<Stat>)
    ensures
        ({
            let volume = mounts::described(disk, stat);
            &&& volume.mount_point == disk.mount_point@
            &&& volume.fs_type == disk.fs_type@
            &&& volume.removable == disk.removable
            &&& volume.kind == disk.kind@
            &&& stat matches Some(stat) ==> {
                &&& volume.total == stat.total
                &&& volume.used == stat.used
                &&& volume.available == stat.available
                &&& volume.read_only == stat.read_only
                &&& volume.inodes == stat.inodes
            }
            &&& stat is None ==> {
                &&& volume.total == disk.total
                &&& disk.available <= disk.total ==> volume.used + volume.available == volume.total
                &&& disk.available > disk.total ==> volume.used == 0
                &&& volume.available == disk.available
                &&& volume.read_only == disk.read_only
                &&& volume.inodes is None
                &&& volume.device == disk.name@
            }
        }),
{
}

} // verus!
