//! Mounted filesystems, in human terms.
//!
//! The public shape here is deliberately friendly: a volume has a *name*, a size and a mount point.
//! Device nodes, filesystem types and inode counts are still carried, but they are details a caller
//! opts into rather than the headline.

use vstd::prelude::*;
use vstd::utf8::encode_utf8;
use crate::double::Double;
use crate::order;
use crate::path;
use crate::path::FilePath;
use crate::size;
use crate::strings;
use crate::tree;

verus! {

#[derive(Copy, Clone, Debug, PartialEq, Eq, Structural)]
pub struct Inodes {
    pub total: u64,
    pub used: u64,
    pub free: u64,
}

impl Inodes {
    pub fn used_fraction(&self) -> (share: Double)
        ensures
            share@ == size::share(self.used as nat, self.total as nat),
            share.valid(),
    {
        size::fraction(self.used, self.total)
    }
}

#[derive(Debug)]
pub struct Filesystem {
    /// What a person would call it: "Macintosh HD", "Root", "backup".
    pub name: String,
    pub mount_point: FilePath,
    /// The device node, e.g. `/dev/disk3s1s1`.
    pub device: String,
    /// APFS, ext4, xfs...
    pub fs_type: String,
    pub total: u64,
    pub used: u64,
    pub available: u64,
    pub read_only: bool,
    pub removable: bool,
    /// SSD / HDD / Removable / Unknown, as far as the OS will say.
    pub kind: String,
    /// Kernel bookkeeping rather than storage: tmpfs, proc, cgroup...
    pub pseudo: bool,
    pub inodes: Option<Inodes>,
}

/// A filesystem as a value.
#[verifier::ext_equal]
pub struct Volume {
    pub name: Seq<char>,
    pub mount_point: Seq<u8>,
    pub device: Seq<char>,
    pub fs_type: Seq<char>,
    pub total: u64,
    pub used: u64,
    pub available: u64,
    pub read_only: bool,
    pub removable: bool,
    pub kind: Seq<char>,
    pub pseudo: bool,
    pub inodes: Option<Inodes>,
}

impl View for Filesystem {
    type V = Volume;

    open spec fn view(&self) -> Volume {
        Volume {
            name: self.name@,
            mount_point: self.mount_point@,
            device: self.device@,
            fs_type: self.fs_type@,
            total: self.total,
            used: self.used,
            available: self.available,
            read_only: self.read_only,
            removable: self.removable,
            kind: self.kind@,
            pseudo: self.pseudo,
            inodes: self.inodes,
        }
    }
}

pub open spec fn volumes(list: Seq<Filesystem>) -> Seq<Volume> {
    list.map_values(|fs: Filesystem| fs@)
}

impl Filesystem {
    pub fn used_fraction(&self) -> (share: Double)
        ensures
            share@ == size::share(self.used as nat, self.total as nat),
            share.valid(),
    {
        size::fraction(self.used, self.total)
    }
}

/// Filesystem types that hold no durable data and only add noise to a list of "what is full".
pub open spec fn pseudo_types() -> Seq<&'static str> {
    seq![
        "autofs",
        "binfmt_misc",
        "bpf",
        "cgroup",
        "cgroup2",
        "configfs",
        "debugfs",
        "devfs",
        "devpts",
        "devtmpfs",
        "efivarfs",
        "fuse.gvfsd-fuse",
        "fuse.portal",
        "fusectl",
        "hugetlbfs",
        "mqueue",
        "nsfs",
        "overlay",
        "proc",
        "pstore",
        "ramfs",
        "rpc_pipefs",
        "securityfs",
        "selinuxfs",
        "squashfs",
        "sysfs",
        "tmpfs",
        "tracefs",
    ]
}

/// Filesystems whose contents do not live on this disk, or that answer over a network. Walking one
/// is both useless for "what is filling my disk" and ruinously slow.
///
/// `fuseblk` is deliberately absent: that is how local NTFS and exFAT drives are mounted, and those
/// really are this machine's storage.
pub open spec fn remote_types() -> Seq<&'static str> {
    seq![
        "9p",
        "afpfs",
        "afs",
        "beegfs",
        "ceph",
        "cifs",
        "curlftpfs",
        "davfs",
        "ftpfs",
        "fuse",
        "fuse.rclone",
        "fuse.s3fs",
        "fuse.sshfs",
        "gfs2",
        "glusterfs",
        "lustre",
        "ncpfs",
        "nfs",
        "nfs4",
        "smb2",
        "smb3",
        "smbfs",
        "sshfs",
        "webdav",
    ]
}

/// Mount points that exist for the OS's benefit, not the user's.
pub open spec fn pseudo_prefixes() -> Seq<&'static str> {
    seq!["/proc", "/sys", "/dev", "/run", "/snap", "/var/snap"]
}

/// Whether a filesystem is somewhere else pretending to be here. Most fuse drivers register as
/// `fuse.<driver>`.
pub open spec fn is_elsewhere(fs_type: Seq<char>) -> bool {
    strings::is_one_of(fs_type, remote_types()) || "fuse."@.is_prefix_of(fs_type)
}

/// True for filesystems that are somewhere else pretending to be here.
pub fn is_remote(fs_type: &str) -> (yes: bool)
    ensures
        yes == is_elsewhere(fs_type@),
{
    let list: [&'static str; 24] = [
        "9p",
        "afpfs",
        "afs",
        "beegfs",
        "ceph",
        "cifs",
        "curlftpfs",
        "davfs",
        "ftpfs",
        "fuse",
        "fuse.rclone",
        "fuse.s3fs",
        "fuse.sshfs",
        "gfs2",
        "glusterfs",
        "lustre",
        "ncpfs",
        "nfs",
        "nfs4",
        "smb2",
        "smb3",
        "smbfs",
        "sshfs",
        "webdav",
    ];
    assert(list@ =~= remote_types());
    strings::one_of(fs_type, &list) || strings::starts_with(fs_type, "fuse.")
}

/// Whether a mount is kernel bookkeeping rather than storage.
///
/// macOS synthesises a pile of mounts under `/System/Volumes`; only the Data volume is somewhere a
/// user actually stores things.
pub open spec fn is_bookkeeping(fs_type: Seq<char>, mount: Seq<char>) -> bool {
    ||| strings::is_one_of(fs_type, pseudo_types())
    ||| "/System/Volumes/"@.is_prefix_of(mount) && mount != "/System/Volumes/Data"@
    ||| exists|i: int|
        0 <= i < pseudo_prefixes().len() && (mount == (#[trigger] pseudo_prefixes()[i])@ || (
        pseudo_prefixes()[i]@ + "/"@).is_prefix_of(mount))
}

pub fn is_pseudo(fs_type: &str, mount_point: &FilePath) -> (yes: bool)
    ensures
        yes == is_bookkeeping(fs_type@, path::shown(mount_point@)),
{
    let list: [&'static str; 28] = [
        "autofs",
        "binfmt_misc",
        "bpf",
        "cgroup",
        "cgroup2",
        "configfs",
        "debugfs",
        "devfs",
        "devpts",
        "devtmpfs",
        "efivarfs",
        "fuse.gvfsd-fuse",
        "fuse.portal",
        "fusectl",
        "hugetlbfs",
        "mqueue",
        "nsfs",
        "overlay",
        "proc",
        "pstore",
        "ramfs",
        "rpc_pipefs",
        "securityfs",
        "selinuxfs",
        "squashfs",
        "sysfs",
        "tmpfs",
        "tracefs",
    ];
    assert(list@ =~= pseudo_types());
    if strings::one_of(fs_type, &list) {
        return true;
    }
    let mount = mount_point.display();
    if strings::starts_with(mount.as_str(), "/System/Volumes/") && !strings::same(
        mount.as_str(),
        "/System/Volumes/Data",
    ) {
        return true;
    }
    let prefixes: [&'static str; 6] = ["/proc", "/sys", "/dev", "/run", "/snap", "/var/snap"];
    assert(prefixes@ =~= pseudo_prefixes());
    let mut at: usize = 0;
    while at < prefixes.len()
        invariant
            at <= prefixes@.len(),
            prefixes@ == pseudo_prefixes(),
            mount@ == path::shown(mount_point@),
            !strings::is_one_of(fs_type@, pseudo_types()),
            !("/System/Volumes/"@.is_prefix_of(mount@) && mount@ != "/System/Volumes/Data"@),
            forall|i: int|
                0 <= i < at ==> mount@ != (#[trigger] pseudo_prefixes()[i])@ && !(
                pseudo_prefixes()[i]@ + "/"@).is_prefix_of(mount@),
        decreases prefixes@.len() - at,
    {
        let mut below = String::from_str(prefixes[at]);
        below.append("/");
        assert(pseudo_prefixes()[at as int] == prefixes@[at as int]);
        if strings::same(mount.as_str(), prefixes[at]) || strings::starts_with(
            mount.as_str(),
            below.as_str(),
        ) {
            return true;
        }
        at += 1;
    }
    false
}

/// The filesystems that are listed.
pub open spec fn shown_volumes(all: Seq<Volume>, include_pseudo: bool) -> Seq<Volume> {
    if include_pseudo {
        all
    } else {
        all.filter(|fs: Volume| !fs.pseudo && fs.total > 0)
    }
}

/// Real ones first, the largest first within that, and by mount point where two are as large.
pub open spec fn listed_before(a: Volume, b: Volume) -> bool {
    ||| !a.pseudo && b.pseudo
    ||| a.pseudo == b.pseudo && (a.total > b.total || (a.total == b.total && path::path_before(
        a.mount_point,
        b.mount_point,
    )))
}

/// The mounted filesystems, real ones first and largest first within that.
pub open spec fn arranged(all: Seq<Volume>, include_pseudo: bool) -> Seq<Volume> {
    order::stable_sort(
        shown_volumes(all, include_pseudo),
        |a: Volume, b: Volume| listed_before(a, b),
    )
}

/// The order of a listing puts any two filesystems in one way, and puts none before itself.
pub proof fn listing_is_an_order()
    ensures
        order::strict_weak(|a: Volume, b: Volume| listed_before(a, b)),
{
    let less = |a: Volume, b: Volume| listed_before(a, b);
    assert forall|x: Volume, y: Volume, z: Volume| #[trigger] less(x, y) && #[trigger] less(
        y,
        z,
    ) implies less(x, z) by {
        let (a, b, c) = (
            path::components(x.mount_point),
            path::components(y.mount_point),
            path::components(z.mount_point),
        );
        if path::run_before(a, b) && path::run_before(b, c) {
            path::run_before_is_transitive(a, b, c);
        }
    }
    assert forall|x: Volume, y: Volume, z: Volume|
        #![trigger less(x, z), less(x, y)]
        #![trigger less(x, z), less(y, z)]
        less(x, z) implies less(x, y) || less(y, z) by {
        let (a, b, c) = (
            path::components(x.mount_point),
            path::components(y.mount_point),
            path::components(z.mount_point),
        );
        path::run_before_is_total(a, b);
        if path::run_before(b, a) && path::run_before(a, c) {
            path::run_before_is_transitive(b, a, c);
        }
    }
    assert forall|x: Volume| !#[trigger] less(x, x) by {
        path::run_before_is_irreflexive(path::components(x.mount_point));
    }
}

/// Every mounted filesystem, real ones first and largest first within that.
pub fn list(filesystems: Vec<Filesystem>, include_pseudo: bool) -> (out: Vec<Filesystem>)
    ensures
        volumes(out@) == arranged(volumes(filesystems@), include_pseudo),
{
    let ghost all = volumes(filesystems@);
    let ghost whole = filesystems@;
    let mut back = order::reversed(filesystems);
    let mut kept: Vec<Filesystem> = Vec::new();
    let ghost wanted = |fs: Volume| !fs.pseudo && fs.total > 0;
    assert(back@ =~= whole.skip(0).reverse());
    assert(shown_volumes(all.take(0), include_pseudo) =~= Seq::empty()) by {
        assert(all.take(0) =~= Seq::empty());
        reveal(Seq::filter);
    }
    while back.len() > 0
        invariant
            all == volumes(whole),
            wanted == (|fs: Volume| !fs.pseudo && fs.total > 0),
            back@ == whole.skip(whole.len() - back@.len()).reverse(),
            back@.len() <= whole.len(),
            volumes(kept@) == shown_volumes(
                all.take(whole.len() - back@.len()),
                include_pseudo,
            ),
        decreases back.len(),
    {
        let ghost done = whole.len() - back@.len();
        let ghost before = kept@;
        if let Some(fs) = back.pop() {
            proof {
                assert(fs == whole[done]);
                assert(all[done] == fs@);
                assert(all.take(done + 1) =~= all.take(done).push(fs@));
                all.take(done).lemma_filter_push(fs@, wanted);
            }
            if include_pseudo || (!fs.pseudo && fs.total > 0) {
                kept.push(fs);
                assert(volumes(kept@) =~= volumes(before).push(fs@));
            }
        }
        assert(back@ =~= whole.skip(whole.len() - back@.len()).reverse());
    }
    assert(all.take(whole.len() as int) =~= all);
    let ghost key = |fs: Filesystem| fs@;
    let ghost less = |a: Volume, b: Volume| listed_before(a, b);
    proof {
        listing_is_an_order();
        order::order_by_key(key, less);
        order::sort_maps(kept@, key, less);
    }
    let before_it = |a: &Filesystem, b: &Filesystem| -> (yes: bool)
        ensures
            yes == listed_before(a@, b@),
        {
            (!a.pseudo && b.pseudo) || (a.pseudo == b.pseudo && (a.total > b.total || (a.total
                == b.total && a.mount_point.comes_before(&b.mount_point))))
        };
    order::sort_stably(
        kept,
        &before_it,
        Ghost(|a: Filesystem, b: Filesystem| less(key(a), key(b))),
    )
}

/// The mount points of the filesystems that are elsewhere.
pub open spec fn remote_points(all: Seq<Volume>) -> Seq<Seq<u8>>
    decreases all.len(),
{
    if all.len() == 0 {
        Seq::empty()
    } else {
        let before = remote_points(all.drop_last());
        if is_elsewhere(all.last().fs_type) {
            before.push(all.last().mount_point)
        } else {
            before
        }
    }
}

/// Every mount point, of those listed, that is not really on this disk.
pub fn remote_mount_points(filesystems: &Vec<Filesystem>) -> (out: Vec<FilePath>)
    ensures
        out@.map_values(|path: FilePath| path@) == remote_points(volumes(filesystems@)),
{
    let ghost all = volumes(filesystems@);
    let ghost value = |path: FilePath| path@;
    let mut out: Vec<FilePath> = Vec::new();
    let mut at: usize = 0;
    assert(out@.map_values(value) =~= remote_points(all.take(0)));
    while at < filesystems.len()
        invariant
            at <= filesystems.len(),
            all == volumes(filesystems@),
            value == (|path: FilePath| path@),
            out@.map_values(value) == remote_points(all.take(at as int)),
        decreases filesystems.len() - at,
    {
        let ghost before = out@;
        assert(all.take(at + 1).drop_last() =~= all.take(at as int));
        assert(all.take(at + 1).last() == filesystems@[at as int]@);
        if is_remote(filesystems[at].fs_type.as_str()) {
            let point = filesystems[at].mount_point.duplicate();
            out.push(point);
            assert(out@.map_values(value) =~= before.map_values(value).push(point@));
        }
        at += 1;
    }
    assert(all.take(at as int) =~= all);
    out
}

/// Whether a filesystem is the one a path lives on, of those listed: it holds the path, and no
/// other that does has a longer mount point, nor one as long that is listed later.
pub open spec fn is_home_of(all: Seq<Volume>, at: int, target: Seq<u8>) -> bool {
    &&& 0 <= at < all.len()
    &&& path::within(target, all[at].mount_point)
    &&& forall|j: int|
        0 <= j < all.len() && path::within(target, (#[trigger] all[j]).mount_point) ==> (
        all[j].mount_point.len() < all[at].mount_point.len() || (all[j].mount_point.len()
            == all[at].mount_point.len() && j <= at))
}

/// The filesystem `target` lives on: the mount point that is its longest prefix.
pub fn for_path(filesystems: &Vec<Filesystem>, target: &FilePath) -> (found: Option<usize>)
    ensures
        found matches Some(at) ==> is_home_of(volumes(filesystems@), at as int, target@),
        found is None ==> forall|j: int|
            0 <= j < filesystems@.len() ==> !path::within(
                target@,
                (#[trigger] volumes(filesystems@)[j]).mount_point,
            ),
{
    let ghost all = volumes(filesystems@);
    let mut best: Option<usize> = None;
    let mut at: usize = 0;
    while at < filesystems.len()
        invariant
            at <= filesystems.len(),
            all == volumes(filesystems@),
            best matches Some(b) ==> b < at && path::within(target@, all[b as int].mount_point)
                && forall|j: int|
                0 <= j < at && path::within(target@, (#[trigger] all[j]).mount_point) ==> (
                all[j].mount_point.len() < all[b as int].mount_point.len() || (
                all[j].mount_point.len() == all[b as int].mount_point.len() && j <= b)),
            best is None ==> forall|j: int|
                0 <= j < at ==> !path::within(target@, (#[trigger] all[j]).mount_point),
        decreases filesystems.len() - at,
    {
        assert(all[at as int] == filesystems@[at as int]@);
        if target.starts_with(&filesystems[at].mount_point) {
            let better = match best {
                None => true,
                Some(b) => {
                    assert(all[b as int] == filesystems@[b as int]@);
                    filesystems[at].mount_point.bytes.len()
                        >= filesystems[b].mount_point.bytes.len()
                },
            };
            if better {
                best = Some(at);
            }
        }
        at += 1;
    }
    best
}

/// What a person would call a volume.
///
/// A hint that is not a device path is a real volume label. Fuse mounts report the same string for
/// both, which is a driver name rather than something a person would call the volume.
pub open spec fn volume_name(
    hint: Option<Seq<char>>,
    device: Seq<char>,
    mount_point: Seq<u8>,
) -> Seq<char> {
    if hint is Some && strings::trimmed(hint->0).len() > 0 && strings::trimmed(hint->0)[0] != '/'
        && strings::trimmed(hint->0) != device {
        strings::trimmed(hint->0)
    } else if path::same_place(mount_point, encode_utf8("/"@)) {
        "Root"@
    } else {
        match path::file_name(mount_point) {
            Some(name) => strings::lossy(name),
            None => if device.len() == 0 {
                path::shown(mount_point)
            } else {
                device
            },
        }
    }
}

pub fn friendly_name(hint: Option<&str>, device: &str, mount_point: &FilePath) -> (name: String)
    ensures
        name@ == volume_name(
            match hint {
                Some(hint) => Some(hint@),
                None => None,
            },
            device@,
            mount_point@,
        ),
{
    if let Some(hint) = hint {
        let hint = strings::trim(hint);
        if hint.as_str().unicode_len() > 0 && hint.as_str().get_char(0) != '/' && !strings::same(
            hint.as_str(),
            device,
        ) {
            return hint;
        }
    }
    if mount_point.same(&FilePath::new("/")) {
        return String::from_str("Root");
    }
    match mount_point.file_name() {
        Some(name) => strings::from_utf8_lossy(&name),
        None => if device.unicode_len() == 0 {
            mount_point.display()
        } else {
            String::from_str(device)
        },
    }
}

/// One line of the table of mounts.
#[derive(Debug)]
pub struct MountRow {
    pub device: String,
    pub mount_point: FilePath,
    pub fs_type: String,
    pub options: String,
}

/// The same, as a value.
#[verifier::ext_equal]
pub struct Mount {
    pub device: Seq<char>,
    pub mount_point: Seq<u8>,
    pub fs_type: Seq<char>,
    pub options: Seq<char>,
}

impl View for MountRow {
    type V = Mount;

    open spec fn view(&self) -> Mount {
        Mount {
            device: self.device@,
            mount_point: self.mount_point@,
            fs_type: self.fs_type@,
            options: self.options@,
        }
    }
}

pub open spec fn mounts(rows: Seq<MountRow>) -> Seq<Mount> {
    rows.map_values(|row: MountRow| row@)
}

/// The value of an octal digit.
pub open spec fn octal(letter: char) -> Option<int> {
    if '0' <= letter <= '7' {
        Some(letter as int - 48)
    } else {
        None
    }
}

/// The byte that three characters spell in octal. A plus sign may stand in place of the first.
pub open spec fn octal_byte(a: char, b: char, c: char) -> Option<int> {
    let high = if a == '+' {
        Some(0int)
    } else {
        octal(a)
    };
    if high is Some && octal(b) is Some && octal(c) is Some && high->0 * 64 + octal(b)->0 * 8
        + octal(c)->0 <= 255 {
        Some(high->0 * 64 + octal(b)->0 * 8 + octal(c)->0)
    } else {
        None
    }
}

/// The table of mounts writes space, tab, newline and backslash in octal; this is what was meant.
pub open spec fn unescaped(field: Seq<char>) -> Seq<char>
    decreases field.len(),
{
    if field.len() == 0 {
        Seq::empty()
    } else if field[0] == '\\' && field.len() >= 4 && octal_byte(
        field[1],
        field[2],
        field[3],
    ) is Some {
        seq![octal_byte(field[1], field[2], field[3])->0 as char] + unescaped(field.skip(4))
    } else {
        seq![field[0]] + unescaped(field.skip(1))
    }
}

fn read_octal(a: char, b: char, c: char) -> (out: Option<u8>)
    ensures
        out is Some <==> octal_byte(a, b, c) is Some,
        out matches Some(byte) ==> octal_byte(a, b, c) == Some(byte as int),
{
    if !(a == '+' || ('0' <= a && a <= '7')) || b < '0' || b > '7' || c < '0' || c > '7' {
        return None;
    }
    let high: u32 = if a == '+' {
        0
    } else {
        a as u32 - 48
    };
    let value: u32 = high * 64 + (b as u32 - 48) * 8 + (c as u32 - 48);
    if value <= 255 {
        Some(value as u8)
    } else {
        None
    }
}

/// `/proc/mounts` octal-escapes space, tab, newline and backslash.
pub fn unescape_mount_field(field: &str) -> (out: String)
    ensures
        out@ == unescaped(field@),
{
    let letters = strings::letters(field);
    let mut out = String::new();
    let mut at: usize = 0;
    assert(letters@.skip(0) =~= letters@);
    assert(out@ + unescaped(letters@.skip(0)) =~= unescaped(letters@));
    while at < letters.len()
        invariant
            at <= letters.len(),
            out@ + unescaped(letters@.skip(at as int)) == unescaped(letters@),
        decreases letters.len() - at,
    {
        let ghost rest = letters@.skip(at as int);
        let ghost before = out@;
        let mut step: usize = 1;
        let mut letter: char = letters[at];
        if letter == '\\' && letters.len() - at >= 4 {
            if let Some(byte) = read_octal(letters[at + 1], letters[at + 2], letters[at + 3]) {
                letter = byte as char;
                step = 4;
            }
        }
        out.push(letter);
        proof {
            assert(rest.skip(1) =~= letters@.skip(at + 1));
            if rest.len() >= 4 {
                assert(rest.skip(4) =~= letters@.skip(at + 4));
            }
            assert(before + unescaped(rest) =~= out@ + unescaped(letters@.skip(at + step)));
        }
        at += step;
    }
    assert(letters@.skip(at as int) =~= Seq::empty());
    assert(out@ =~= out@ + unescaped(letters@.skip(at as int)));
    out
}

/// What one line of the table says, where it has the three fields that count.
pub open spec fn mount_in(line: Seq<char>) -> Option<Mount> {
    let fields = strings::words_of(line);
    if fields.len() < 3 {
        None
    } else {
        Some(
            Mount {
                device: unescaped(fields[0]),
                mount_point: encode_utf8(unescaped(fields[1])),
                fs_type: unescaped(fields[2]),
                options: if fields.len() > 3 {
                    fields[3]
                } else {
                    Seq::empty()
                },
            },
        )
    }
}

/// What some lines say.
pub open spec fn mounts_in(lines: Seq<Seq<char>>) -> Seq<Mount>
    decreases lines.len(),
{
    if lines.len() == 0 {
        Seq::empty()
    } else {
        let before = mounts_in(lines.drop_last());
        match mount_in(lines.last()) {
            Some(mount) => before.push(mount),
            None => before,
        }
    }
}

/// The rows of the kernel's table of mounts.
pub fn read_proc_mounts(contents: &str) -> (out: Vec<MountRow>)
    ensures
        mounts(out@) == mounts_in(strings::split_at_char(contents@, '\n')),
{
    let lines = strings::split(contents, '\n');
    let ghost all = strings::texts(lines@);
    let mut out: Vec<MountRow> = Vec::new();
    let mut at: usize = 0;
    assert(mounts(out@) =~= mounts_in(all.take(0)));
    while at < lines.len()
        invariant
            at <= lines.len(),
            all == strings::texts(lines@),
            mounts(out@) == mounts_in(all.take(at as int)),
        decreases lines.len() - at,
    {
        let ghost before = out@;
        assert(all.take(at + 1).drop_last() =~= all.take(at as int));
        assert(all.take(at + 1).last() == lines@[at as int]@);
        let fields = strings::words(lines[at].as_str());
        assert(fields@.len() == strings::words_of(lines@[at as int]@).len());
        if fields.len() >= 3 {
            proof {
                let words = strings::words_of(lines@[at as int]@);
                assert(words[0] == fields@[0]@ && words[1] == fields@[1]@ && words[2]
                    == fields@[2]@);
                if words.len() > 3 {
                    assert(words[3] == fields@[3]@);
                }
            }
            let options = if fields.len() > 3 {
                String::from_str(fields[3].as_str())
            } else {
                String::new()
            };
            assert(fields@.len() <= 3 ==> options@ =~= Seq::empty());
            let row = MountRow {
                device: unescape_mount_field(fields[0].as_str()),
                mount_point: FilePath::new(unescape_mount_field(fields[1].as_str()).as_str()),
                fs_type: unescape_mount_field(fields[2].as_str()),
                options,
            };
            out.push(row);
            assert(mounts(out@) =~= mounts(before).push(row@));
        }
        at += 1;
    }
    assert(all.take(at as int) =~= all);
    out
}

/// What the kernel says of a mounted filesystem, in its own units.
#[derive(Debug)]
pub struct RawStat {
    /// The fragment size the block counts are expressed in; some filesystems report 0 here, in
    /// which case the block size is the right unit.
    pub fragment_size: u64,
    pub block_size: u64,
    pub blocks: u64,
    pub blocks_free: u64,
    pub blocks_available: u64,
    pub files: u64,
    pub files_free: u64,
    pub read_only: bool,
    /// The device node, where the kernel gives it here.
    pub device: Option<String>,
}

/// The same in bytes.
#[derive(Debug)]
pub struct FsStat {
    pub total: u64,
    pub used: u64,
    pub available: u64,
    pub read_only: bool,
    pub device: Option<String>,
    pub inodes: Option<Inodes>,
}

/// The same, as a value.
#[verifier::ext_equal]
pub struct Stat {
    pub total: u64,
    pub used: u64,
    pub available: u64,
    pub read_only: bool,
    pub device: Option<Seq<char>>,
    pub inodes: Option<Inodes>,
}

impl View for FsStat {
    type V = Stat;

    open spec fn view(&self) -> Stat {
        Stat {
            total: self.total,
            used: self.used,
            available: self.available,
            read_only: self.read_only,
            device: match self.device {
                Some(device) => Some(device@),
                None => None,
            },
            inodes: self.inodes,
        }
    }
}

/// Multiplication as 64-bit counters do it.
pub open spec fn scaled(count: u64, unit: u64) -> u64 {
    ((count * unit) % 0x1_0000_0000_0000_0000) as u64
}

/// The unit that block counts are in.
pub open spec fn unit_of(raw: RawStat) -> u64 {
    if raw.fragment_size > 0 {
        raw.fragment_size
    } else {
        raw.block_size
    }
}

/// What a filesystem holds, in bytes.
///
/// `df` calls the reserved-for-root slice "used" too, which is why used + available rarely equals
/// total.
pub open spec fn in_bytes(raw: RawStat) -> Stat {
    let total = scaled(raw.blocks, unit_of(raw));
    Stat {
        total,
        used: tree::less_by(total, scaled(raw.blocks_free, unit_of(raw))),
        available: scaled(raw.blocks_available, unit_of(raw)),
        read_only: raw.read_only,
        device: match raw.device {
            Some(device) => if device@.len() > 0 {
                Some(device@)
            } else {
                None
            },
            None => None,
        },
        inodes: if raw.files > 0 {
            Some(
                Inodes {
                    total: raw.files,
                    free: raw.files_free,
                    used: tree::less_by(raw.files, raw.files_free),
                },
            )
        } else {
            None
        },
    }
}

/// What a filesystem holds, in bytes.
pub fn os_stat(raw: &RawStat) -> (stat: FsStat)
    ensures
        stat@ == in_bytes(*raw),
{
    let unit: u64 = if raw.fragment_size > 0 {
        raw.fragment_size
    } else {
        raw.block_size
    };
    let total: u64 = raw.blocks.wrapping_mul(unit);
    let free: u64 = raw.blocks_free.wrapping_mul(unit);
    let inodes = if raw.files > 0 {
        Some(
            Inodes {
                total: raw.files,
                free: raw.files_free,
                used: raw.files.saturating_sub(raw.files_free),
            },
        )
    } else {
        None
    };
    let device = match &raw.device {
        Some(device) => if device.as_str().unicode_len() > 0 {
            Some(String::from_str(device.as_str()))
        } else {
            None
        },
        None => None,
    };
    FsStat {
        total,
        used: total.saturating_sub(free),
        available: raw.blocks_available.wrapping_mul(unit),
        read_only: raw.read_only,
        device,
        inodes,
    }
}

/// Whether a mount is of a device that an earlier one is of. Bind mounts, and the several mounts a
/// container stacks onto one device, would otherwise repeat the same numbers row after row.
pub open spec fn repeats(rows: Seq<Mount>, at: int) -> bool {
    "/dev/"@.is_prefix_of(rows[at].device) && exists|j: int|
        0 <= j < at && (#[trigger] rows[j]).device == rows[at].device
}

/// The mounts, each device once.
pub open spec fn distinct(rows: Seq<Mount>) -> Seq<Mount>
    decreases rows.len(),
{
    if rows.len() == 0 {
        Seq::empty()
    } else {
        let before = distinct(rows.drop_last());
        if repeats(rows, rows.len() - 1) {
            before
        } else {
            before.push(rows.last())
        }
    }
}

/// The mounts, each device once.
pub fn distinct_mounts(rows: Vec<MountRow>) -> (out: Vec<MountRow>)
    ensures
        mounts(out@) == distinct(mounts(rows@)),
{
    let ghost all = mounts(rows@);
    let ghost whole = rows@;
    let mut devices: Vec<String> = Vec::new();
    let mut out: Vec<MountRow> = Vec::new();
    let mut back = order::reversed(rows);
    assert(mounts(out@) =~= distinct(all.take(0)));
    assert(back@ =~= whole.skip(0).reverse());
    while back.len() > 0
        invariant
            all == mounts(whole),
            back@.len() <= whole.len(),
            devices@.len() == whole.len() - back@.len(),
            forall|i: int| 0 <= i < devices@.len() ==> (#[trigger] devices@[i])@ == all[i].device,
            back@ == whole.skip(whole.len() - back@.len()).reverse(),
            mounts(out@) == distinct(all.take(whole.len() - back@.len())),
        decreases back.len(),
    {
        let ghost done = whole.len() - back@.len();
        let ghost before = out@;
        let ghost upto = all.take(done + 1);
        if let Some(row) = back.pop() {
            proof {
                assert(row == whole[done]);
                assert(all[done] == row@);
                assert(upto.drop_last() =~= all.take(done));
                assert(upto.last() == row@);
            }
            let mut seen = false;
            let mut index: usize = 0;
            while index < devices.len()
                invariant
                    index <= devices.len(),
                    devices@.len() == done,
                    done < all.len(),
                    upto == all.take(done + 1),
                    all[done] == row@,
                    forall|i: int|
                        0 <= i < devices@.len() ==> (#[trigger] devices@[i])@ == all[i].device,
                    seen == exists|j: int|
                        0 <= j < index && (#[trigger] upto[j]).device == row@.device,
                decreases devices.len() - index,
            {
                assert(upto[index as int].device == devices@[index as int]@);
                if strings::same(devices[index].as_str(), row.device.as_str()) {
                    seen = true;
                }
                index += 1;
            }
            let repeat = seen && strings::starts_with(row.device.as_str(), "/dev/");
            assert(repeat == repeats(upto, done));
            devices.push(String::from_str(row.device.as_str()));
            if !repeat {
                out.push(row);
                assert(mounts(out@) =~= mounts(before).push(row@));
            }
        }
        assert(back@ =~= whole.skip(whole.len() - back@.len()).reverse());
    }
    assert(all.take(whole.len() as int) =~= all);
    out
}

/// Pretty name, device kind and removability of what is mounted somewhere. The kernel's table
/// knows nothing of volume labels or whether a disk is removable.
#[derive(Debug)]
pub struct DiskHint {
    pub mount_point: FilePath,
    pub name: String,
    pub kind: String,
    pub removable: bool,
}

/// The same, as a value.
#[verifier::ext_equal]
pub struct Hint {
    pub mount_point: Seq<u8>,
    pub name: Seq<char>,
    pub kind: Seq<char>,
    pub removable: bool,
}

impl View for DiskHint {
    type V = Hint;

    open spec fn view(&self) -> Hint {
        Hint {
            mount_point: self.mount_point@,
            name: self.name@,
            kind: self.kind@,
            removable: self.removable,
        }
    }
}

pub open spec fn hints_of(list: Seq<DiskHint>) -> Seq<Hint> {
    list.map_values(|hint: DiskHint| hint@)
}

/// The last hint about a mount point.
pub open spec fn hint_for(hints: Seq<Hint>, mount_point: Seq<u8>) -> Option<Hint>
    decreases hints.len(),
{
    if hints.len() == 0 {
        None
    } else if path::same_place(hints.last().mount_point, mount_point) {
        Some(hints.last())
    } else {
        hint_for(hints.drop_last(), mount_point)
    }
}

fn find_hint<'a>(hints: &'a Vec<DiskHint>, mount_point: &FilePath) -> (found: Option<&'a DiskHint>)
    ensures
        found is Some <==> hint_for(hints_of(hints@), mount_point@) is Some,
        found matches Some(hint) ==> Some(hint@) == hint_for(hints_of(hints@), mount_point@),
{
    let ghost all = hints_of(hints@);
    let mut at: usize = hints.len();
    assert(all.take(at as int) =~= all);
    while at > 0
        invariant
            at <= hints.len(),
            all == hints_of(hints@),
            hint_for(all, mount_point@) == hint_for(all.take(at as int), mount_point@),
        decreases at,
    {
        assert(all.take(at as int).drop_last() =~= all.take(at - 1));
        assert(all.take(at as int).last() == hints@[at - 1]@);
        at -= 1;
        if hints[at].mount_point.same(mount_point) {
            return Some(&hints[at]);
        }
    }
    None
}

/// Whether a list of mount options has the one that makes it read-only.
pub open spec fn mounted_read_only(options: Seq<char>) -> bool {
    strings::split_at_char(options, ',').contains("ro"@)
}

fn has_ro(options: &str) -> (yes: bool)
    ensures
        yes == mounted_read_only(options@),
{
    let list = strings::split(options, ',');
    let ghost all = strings::texts(list@);
    let mut at: usize = 0;
    while at < list.len()
        invariant
            at <= list.len(),
            all == strings::texts(list@),
            all == strings::split_at_char(options@, ','),
            forall|i: int| 0 <= i < at ==> #[trigger] all[i] != "ro"@,
        decreases list.len() - at,
    {
        assert(all[at as int] == list@[at as int]@);
        if strings::same(list[at].as_str(), "ro") {
            assert(all.contains(all[at as int]));
            return true;
        }
        at += 1;
    }
    false
}

/// A mounted filesystem, put together from all that is known of it.
pub open spec fn assembled(row: Mount, stat: Option<Stat>, hint: Option<Hint>) -> Volume {
    Volume {
        name: volume_name(
            match hint {
                Some(hint) => Some(hint.name),
                None => None,
            },
            row.device,
            row.mount_point,
        ),
        mount_point: row.mount_point,
        device: row.device,
        fs_type: row.fs_type,
        total: match stat {
            Some(stat) => stat.total,
            None => 0,
        },
        used: match stat {
            Some(stat) => stat.used,
            None => 0,
        },
        available: match stat {
            Some(stat) => stat.available,
            None => 0,
        },
        read_only: (stat is Some && stat->0.read_only) || mounted_read_only(row.options),
        removable: hint is Some && hint->0.removable,
        kind: match hint {
            Some(hint) => hint.kind,
            None => "Unknown"@,
        },
        pseudo: is_bookkeeping(row.fs_type, path::shown(row.mount_point)),
        inodes: match stat {
            Some(stat) => stat.inodes,
            None => None,
        },
    }
}

/// What is known of one mount, or not.
pub open spec fn stat_value(stat: Option<FsStat>) -> Option<Stat> {
    match stat {
        Some(stat) => Some(stat@),
        None => None,
    }
}

fn assemble(row: &MountRow, stat: &Option<FsStat>, hint: Option<&DiskHint>) -> (fs: Filesystem)
    ensures
        fs@ == assembled(
            row@,
            stat_value(*stat),
            match hint {
                Some(hint) => Some(hint@),
                None => None,
            },
        ),
{
    let label: Option<&str> = match hint {
        Some(hint) => Some(hint.name.as_str()),
        None => None,
    };
    let (total, used, available): (u64, u64, u64) = match stat {
        Some(stat) => (stat.total, stat.used, stat.available),
        None => (0, 0, 0),
    };
    let read_only = match stat {
        Some(stat) => stat.read_only,
        None => false,
    };
    Filesystem {
        name: friendly_name(label, row.device.as_str(), &row.mount_point),
        mount_point: row.mount_point.duplicate(),
        device: String::from_str(row.device.as_str()),
        fs_type: String::from_str(row.fs_type.as_str()),
        total,
        used,
        available,
        read_only: read_only || has_ro(row.options.as_str()),
        removable: match hint {
            Some(hint) => hint.removable,
            None => false,
        },
        kind: match hint {
            Some(hint) => String::from_str(hint.kind.as_str()),
            None => String::from_str("Unknown"),
        },
        pseudo: is_pseudo(row.fs_type.as_str(), &row.mount_point),
        inodes: match stat {
            Some(stat) => stat.inodes,
            None => None,
        },
    }
}

/// Every mounted filesystem: the rows of the kernel's table, what the kernel says of each, and the
/// hints about the disks.
pub fn collect(
    rows: &Vec<MountRow>,
    stats: &Vec<Option<FsStat>>,
    hints: &Vec<DiskHint>,
) -> (out: Vec<Filesystem>)
    requires
        stats@.len() == rows@.len(),
    ensures
        out@.len() == rows@.len(),
        forall|i: int|
            0 <= i < rows@.len() ==> #[trigger] volumes(out@)[i] == assembled(
                rows@[i]@,
                stat_value(stats@[i]),
                hint_for(hints_of(hints@), rows@[i]@.mount_point),
            ),
{
    let mut out: Vec<Filesystem> = Vec::new();
    let mut at: usize = 0;
    while at < rows.len()
        invariant
            at <= rows.len(),
            stats@.len() == rows@.len(),
            out@.len() == at,
            forall|i: int|
                0 <= i < at ==> #[trigger] volumes(out@)[i] == assembled(
                    rows@[i]@,
                    stat_value(stats@[i]),
                    hint_for(hints_of(hints@), rows@[i]@.mount_point),
                ),
        decreases rows.len() - at,
    {
        let ghost before = volumes(out@);
        let hint = find_hint(hints, &rows[at].mount_point);
        let fs = assemble(&rows[at], &stats[at], hint);
        out.push(fs);
        assert(volumes(out@) =~= before.push(fs@));
        at += 1;
    }
    out
}

/// A disk as systems without a kernel table of mounts describe it.
#[derive(Debug)]
pub struct DiskFacts {
    pub name: String,
    pub mount_point: FilePath,
    pub fs_type: String,
    pub kind: String,
    pub total: u64,
    pub available: u64,
    pub read_only: bool,
    pub removable: bool,
}

/// A filesystem put together from a disk's own description. The kernel knows the device node; the
/// description gives the volume label.
pub open spec fn described(disk: DiskFacts, stat: Option<Stat>) -> Volume {
    let device = match stat {
        Some(stat) => match stat.device {
            Some(device) => device,
            None => disk.name@,
        },
        None => disk.name@,
    };
    Volume {
        name: volume_name(Some(disk.name@), device, disk.mount_point@),
        mount_point: disk.mount_point@,
        device,
        fs_type: disk.fs_type@,
        total: match stat {
            Some(stat) => stat.total,
            None => disk.total,
        },
        used: match stat {
            Some(stat) => stat.used,
            None => tree::less_by(disk.total, disk.available),
        },
        available: match stat {
            Some(stat) => stat.available,
            None => disk.available,
        },
        read_only: match stat {
            Some(stat) => stat.read_only,
            None => disk.read_only,
        },
        removable: disk.removable,
        kind: disk.kind@,
        pseudo: is_bookkeeping(disk.fs_type@, path::shown(disk.mount_point@)),
        inodes: match stat {
            Some(stat) => stat.inodes,
            None => None,
        },
    }
}

/// A mounted filesystem, from a disk's own description and what the kernel says of it.
pub fn from_disk(disk: &DiskFacts, stat: &Option<FsStat>) -> (fs: Filesystem)
    ensures
        fs@ == described(*disk, stat_value(*stat)),
{
    let device = match stat {
        Some(stat) => match &stat.device {
            Some(device) => String::from_str(device.as_str()),
            None => String::from_str(disk.name.as_str()),
        },
        None => String::from_str(disk.name.as_str()),
    };
    let (total, used, available): (u64, u64, u64) = match stat {
        Some(stat) => (stat.total, stat.used, stat.available),
        None => (disk.total, disk.total.saturating_sub(disk.available), disk.available),
    };
    Filesystem {
        name: friendly_name(Some(disk.name.as_str()), device.as_str(), &disk.mount_point),
        mount_point: disk.mount_point.duplicate(),
        fs_type: String::from_str(disk.fs_type.as_str()),
        total,
        used,
        available,
        read_only: match stat {
            Some(stat) => stat.read_only,
            None => disk.read_only,
        },
        removable: disk.removable,
        kind: String::from_str(disk.kind.as_str()),
        pseudo: is_pseudo(disk.fs_type.as_str(), &disk.mount_point),
        inodes: match stat {
            Some(stat) => stat.inodes,
            None => None,
        },
        device,
    }
}

/// A listing without bookkeeping mounts is the whole listing with those left out, and what is empty,
/// in the same order; and every listing runs from the real ones to the others, the largest first
/// within each.
pub proof fn listing_hides_bookkeeping(all: Seq<Volume>, include_pseudo: bool)
    ensures
        forall|i: int|
            !include_pseudo && 0 <= i < arranged(all, include_pseudo).len() ==> {
                let fs = #[trigger] arranged(all, include_pseudo)[i];
                !fs.pseudo && fs.total > 0
            },
        forall|i: int, j: int|
            0 <= i < j < arranged(all, include_pseudo).len() ==> {
                let (a, b) = (
                    #[trigger] arranged(all, include_pseudo)[i],
                    #[trigger] arranged(all, include_pseudo)[j],
                );
                (a.pseudo ==> b.pseudo) && (a.pseudo == b.pseudo ==> a.total >= b.total)
            },
        arranged(all, true).to_multiset() == all.to_multiset(),
        arranged(all, false) == arranged(all, true).filter(
            |fs: Volume| !fs.pseudo && fs.total > 0,
        ),
{
    let less = |a: Volume, b: Volume| listed_before(a, b);
    let wanted = |fs: Volume| !fs.pseudo && fs.total > 0;
    let kept = shown_volumes(all, include_pseudo);
    let out = arranged(all, include_pseudo);
    listing_is_an_order();
    order::sort_orders(kept, less);
    order::sort_is_a_permutation(kept, less);
    order::sort_keeps_members(kept, less);
    order::sort_is_a_permutation(all, less);
    order::sort_filters(all, less, wanted);
    assert forall|i: int| !include_pseudo && 0 <= i < out.len() implies ({
        let fs = #[trigger] out[i];
        !fs.pseudo && fs.total > 0
    }) by {
        assert(out.contains(out[i]));
        let p = choose|p: int| 0 <= p < kept.len() && kept[p] == out[i];
        all.lemma_filter_pred(wanted, p);
    }
    assert forall|i: int, j: int| 0 <= i < j < out.len() implies ({
        let (a, b) = (#[trigger] out[i], #[trigger] out[j]);
        (a.pseudo ==> b.pseudo) && (a.pseudo == b.pseudo ==> a.total >= b.total)
    }) by {
        assert(!less(out[j], out[i]));
    }
}

/// A field without a backslash is meant as it stands.
pub proof fn plain_fields_are_unchanged(field: Seq<char>)
    requires
        !field.contains('\\'),
    ensures
        unescaped(field) == field,
    decreases field.len(),
{
    if field.len() > 0 {
        assert(field.contains(field[0]));
        let rest = field.skip(1);
        assert forall|i: int| 0 <= i < rest.len() implies rest[i] != '\\' by {
            assert(field.contains(field[i + 1]));
        }
        plain_fields_are_unchanged(rest);
        assert(field =~= seq![field[0]] + rest);
    }
}

} // verus!
