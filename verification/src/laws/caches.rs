//! What is recognised as reclaimable, and what is called safe.

use vstd::prelude::*;
use vstd::utf8::{encode_utf8, is_ascii_chars};
use crate::categories;
use crate::categories::{Around, Category, Find, Rule, Safety};
use crate::commands;
use crate::order;
use crate::path;
use crate::size::SizeKind;
use crate::tree;
use crate::tree::{EntryType, Tree};

verus! {

/// Whether a path is a place below the home directory.
pub open spec fn is_below_home(path: Seq<u8>, around: Around, relative: Seq<char>) -> bool {
    around.home is Some && path::same_place(
        path,
        path::joined(around.home->0, encode_utf8(relative)),
    )
}

/// Whether a path has a name, and a file of another name stands next to it.
pub open spec fn is_beside(path: Seq<u8>, around: Around, name: Seq<char>, proof_of_it: Seq<char>) -> bool {
    &&& path::file_name(path) == Some(encode_utf8(name))
    &&& path::parent(path) is Some
    &&& exists|i: int|
        0 <= i < around.present.len() && path::same_place(
            #[trigger] around.present[i],
            path::joined(path::parent(path)->0, encode_utf8(proof_of_it)),
        )
}

/// The places that may hold what nothing brings back: archives, simulator devices, system and
/// emulator images, container data, and the trash.
pub open spec fn may_hold_data(path: Seq<u8>, around: Around) -> bool {
    ||| is_below_home(path, around, "Library/Developer/Xcode/Archives"@)
    ||| is_below_home(path, around, "Library/Developer/CoreSimulator/Devices"@)
    ||| is_below_home(path, around, "Library/Android/sdk/system-images"@)
    ||| is_below_home(path, around, "Android/Sdk/system-images"@)
    ||| is_below_home(path, around, ".android/avd"@)
    ||| is_below_home(path, around, "Library/Containers/com.docker.docker/Data"@)
    ||| is_below_home(path, around, ".local/share/docker"@)
    ||| is_below_home(path, around, ".local/share/Trash"@)
    ||| is_below_home(path, around, ".Trash"@)
    ||| path::same_place(path, encode_utf8("/var/lib/docker"@))
}

/// The places that a tool fills again by itself.
pub open spec fn comes_back(path: Seq<u8>, around: Around) -> bool {
    ||| is_below_home(path, around, "Library/Developer/Xcode/DerivedData"@)
    ||| is_below_home(path, around, "Library/Developer/Xcode/iOS DeviceSupport"@)
    ||| is_below_home(path, around, "Library/Developer/CoreSimulator/Caches"@)
    ||| is_below_home(path, around, "Library/Caches/org.swift.swiftpm"@)
    ||| is_below_home(path, around, "Library/Caches/CocoaPods"@)
    ||| is_below_home(path, around, ".gradle/caches"@)
    ||| is_below_home(path, around, ".gradle/wrapper/dists"@)
    ||| is_below_home(path, around, ".m2/repository"@)
    ||| is_below_home(path, around, ".npm/_cacache"@)
    ||| is_below_home(path, around, ".cache/yarn"@)
    ||| is_below_home(path, around, "Library/Caches/Yarn"@)
    ||| is_below_home(path, around, "Library/pnpm/store"@)
    ||| is_below_home(path, around, ".local/share/pnpm/store"@)
    ||| is_below_home(path, around, ".cargo/registry/cache"@)
    ||| is_below_home(path, around, ".cargo/git"@)
    ||| is_below_home(path, around, "go/pkg/mod"@)
    ||| is_below_home(path, around, ".cache/go-build"@)
    ||| is_below_home(path, around, ".cache/pip"@)
    ||| is_below_home(path, around, "Library/Caches/pip"@)
    ||| is_below_home(path, around, ".ccache"@)
    ||| is_below_home(path, around, "Library/Caches/Homebrew"@)
    ||| is_beside(path, around, "target"@, "Cargo.toml"@)
    ||| is_beside(path, around, "node_modules"@, "package.json"@)
    ||| path::file_name(path) == Some(encode_utf8(".venv"@))
    ||| path::file_name(path) == Some(encode_utf8("__pycache__"@))
}

proof fn first_claims(rules: Seq<Rule>, path: Seq<u8>, around: Around) -> (at: int)
    ensures
        match categories::first_claim(rules, path, around) {
            Some(rule) => 0 <= at < rules.len() && rules[at] == rule && categories::claims(
                rule,
                path,
                around,
            ),
            None => forall|i: int|
                0 <= i < rules.len() ==> !categories::claims(#[trigger] rules[i], path, around),
        },
    decreases rules.len(),
{
    if rules.len() == 0 || categories::claims(rules[0], path, around) {
        0
    } else {
        let rest = rules.skip(1);
        let at = first_claims(rest, path, around);
        if categories::first_claim(rest, path, around) is None {
            assert forall|i: int| 0 <= i < rules.len() implies !categories::claims(
                #[trigger] rules[i],
                path,
                around,
            ) by {
                if i > 0 {
                    assert(rest[i - 1] == rules[i]);
                }
            }
        }
        at + 1
    }
}

/// Only what a tool fills again by itself is called safe to regenerate.
pub proof fn only_what_comes_back_is_safe(path: Seq<u8>, around: Around)
    requires
        categories::rule_for(path, around) is Some,
        categories::rule_for(path, around)->0.safety == Safety::Regenerable,
    ensures
        comes_back(path, around),
{
    reveal(categories::rule_table);
    let at = first_claims(categories::rule_table(), path, around);
}

/// What is to be reviewed first is what may hold data, and nothing else.
pub proof fn only_data_is_reviewed_first(path: Seq<u8>, around: Around)
    requires
        categories::rule_for(path, around) is Some,
        categories::rule_for(path, around)->0.safety == Safety::ReviewFirst,
    ensures
        may_hold_data(path, around),
{
    reveal(categories::rule_table);
    let at = first_claims(categories::rule_table(), path, around);
}

/// Everything on either list is recognised, and nothing else is.
pub proof fn the_lists_are_recognised(path: Seq<u8>, around: Around)
    ensures
        categories::rule_for(path, around) is Some <==> comes_back(path, around) || may_hold_data(
            path,
            around,
        ),
{
    reveal(categories::rule_table);
    let table = categories::rule_table();
    let at = first_claims(table, path, around);
    if categories::rule_for(path, around) is Some {
        if categories::rule_for(path, around)->0.safety == Safety::Regenerable {
            only_what_comes_back_is_safe(path, around);
        } else {
            only_data_is_reviewed_first(path, around);
        }
    } else {
        assert(table.len() == 35);
        assert(!categories::claims(table[0], path, around));
        assert(!categories::claims(table[1], path, around));
        assert(!categories::claims(table[2], path, around));
        assert(!categories::claims(table[3], path, around));
        assert(!categories::claims(table[4], path, around));
        assert(!categories::claims(table[5], path, around));
        assert(!categories::claims(table[6], path, around));
        assert(!categories::claims(table[7], path, around));
        assert(!categories::claims(table[8], path, around));
        assert(!categories::claims(table[9], path, around));
        assert(!categories::claims(table[10], path, around));
        assert(!categories::claims(table[11], path, around));
        assert(!categories::claims(table[12], path, around));
        assert(!categories::claims(table[13], path, around));
        assert(!categories::claims(table[14], path, around));
        assert(!categories::claims(table[15], path, around));
        assert(!categories::claims(table[16], path, around));
        assert(!categories::claims(table[17], path, around));
        assert(!categories::claims(table[18], path, around));
        assert(!categories::claims(table[19], path, around));
        assert(!categories::claims(table[20], path, around));
        assert(!categories::claims(table[21], path, around));
        assert(!categories::claims(table[22], path, around));
        assert(!categories::claims(table[23], path, around));
        assert(!categories::claims(table[24], path, around));
        assert(!categories::claims(table[25], path, around));
        assert(!categories::claims(table[26], path, around));
        assert(!categories::claims(table[27], path, around));
        assert(!categories::claims(table[28], path, around));
        assert(!categories::claims(table[29], path, around));
        assert(!categories::claims(table[30], path, around));
        assert(!categories::claims(table[31], path, around));
        assert(!categories::claims(table[32], path, around));
        assert(!categories::claims(table[33], path, around));
        assert(!categories::claims(table[34], path, around));
    }
}

/// Whether the last name of a path below a directory is so many letters long.
spec fn ends_in_name(relative: Seq<char>, letters: int) -> bool {
    let from = relative.len() - letters;
    &&& is_ascii_chars(relative)
    &&& 2 < letters <= relative.len()
    &&& relative[0] != '/'
    &&& from > 0 ==> from > 1 && relative[from - 1] == '/' && relative[from - 2] != '/'
    &&& forall|i: int| from <= i < relative.len() ==> relative[i] != '/'
}

/// The last name of a path below a directory is the last name of the path that was joined to it.
proof fn the_last_name(base: Seq<u8>, relative: Seq<char>, letters: int)
    requires
        ends_in_name(relative, letters),
    ensures
        path::file_name(path::joined(base, encode_utf8(relative))) is Some,
        ({
            let name = path::file_name(path::joined(base, encode_utf8(relative)))->0;
            &&& name.len() == letters
            &&& name[0] == relative[relative.len() - letters] as u8
        }),
{
    vstd::utf8::is_ascii_chars_encode_utf8(relative);
    let bytes = encode_utf8(relative);
    let from = relative.len() - letters;
    let name = bytes.skip(from);
    assert forall|i: int| 0 <= i < name.len() implies name[i] != 47 by {
        assert(relative[from + i] != '/');
        assert(name[i] == relative[from + i] as u8);
    }
    assert(name != seq![47u8] && name != seq![46u8] && name != seq![46u8, 46u8]) by {
        assert(name.len() > 2);
    }
    assert(relative[0] as u8 == bytes[0]);
    if from == 0 {
        assert(name =~= bytes);
        path::joined_name_is_last(base, name);
    } else {
        let front = bytes.take(from - 1);
        assert(relative[from - 1] as u8 == bytes[from - 1]);
        assert(relative[from - 2] as u8 == bytes[from - 2]);
        assert(bytes =~= front + seq![47u8] + name);
        let upper = path::joined(base, front);
        assert(front[0] != 47);
        assert(front.last() != 47);
        assert(upper.last() == front.last());
        assert(path::joined(base, bytes) =~= path::joined(upper, name));
        path::joined_name_is_last(upper, name);
    }
}

/// How long the last name of a path is, and with what it starts.
spec fn shape(path: Seq<u8>) -> (int, u8) {
    let name = path::file_name(path)->0;
    (name.len() as int, name[0])
}

proof fn same_place_same_shape(a: Seq<u8>, b: Seq<u8>)
    requires
        path::same_place(a, b),
    ensures
        path::file_name(a) == path::file_name(b),
{
}

proof fn shapes_below_home(path: Seq<u8>, around: Around, relative: Seq<char>, letters: int)
    requires
        is_below_home(path, around, relative),
        ends_in_name(relative, letters),
    ensures
        path::file_name(path) is Some,
        shape(path) == (letters, relative[relative.len() - letters] as u8),
{
    the_last_name(around.home->0, relative, letters);
    same_place_same_shape(path, path::joined(around.home->0, encode_utf8(relative)));
}

proof fn shapes_of_names(path: Seq<u8>, name: Seq<char>)
    requires
        path::file_name(path) == Some(encode_utf8(name)),
        is_ascii_chars(name),
        name.len() > 0,
    ensures
        shape(path) == (name.len() as int, name[0] as u8),
{
    vstd::utf8::is_ascii_chars_encode_utf8(name);
    assert(name[0] as u8 == encode_utf8(name)[0]);
}

spec fn shape_of_data(shape: (int, u8)) -> bool {
    ||| shape == (3int, 97u8)
    ||| shape == (4int, 68u8)
    ||| shape == (5int, 84u8)
    ||| shape == (6int, 46u8)
    ||| shape == (6int, 100u8)
    ||| shape == (7int, 68u8)
    ||| shape == (8int, 65u8)
    ||| shape == (13int, 115u8)
}

proof fn data_has_its_shape(path: Seq<u8>, around: Around)
    requires
        may_hold_data(path, around),
    ensures
        path::file_name(path) is Some,
        shape_of_data(shape(path)),
{
    reveal_strlit("Library/Developer/Xcode/Archives");
    reveal_strlit("Library/Developer/CoreSimulator/Devices");
    reveal_strlit("Library/Android/sdk/system-images");
    reveal_strlit("Android/Sdk/system-images");
    reveal_strlit(".android/avd");
    reveal_strlit("Library/Containers/com.docker.docker/Data");
    reveal_strlit(".local/share/docker");
    reveal_strlit(".local/share/Trash");
    reveal_strlit(".Trash");
    reveal_strlit("/var/lib/docker");
    reveal_strlit("var/lib/docker");
    if is_below_home(path, around, "Library/Developer/Xcode/Archives"@) {
        shapes_below_home(path, around, "Library/Developer/Xcode/Archives"@, 8);
    } else if is_below_home(path, around, "Library/Developer/CoreSimulator/Devices"@) {
        shapes_below_home(path, around, "Library/Developer/CoreSimulator/Devices"@, 7);
    } else if is_below_home(path, around, "Library/Android/sdk/system-images"@) {
        shapes_below_home(path, around, "Library/Android/sdk/system-images"@, 13);
    } else if is_below_home(path, around, "Android/Sdk/system-images"@) {
        shapes_below_home(path, around, "Android/Sdk/system-images"@, 13);
    } else if is_below_home(path, around, ".android/avd"@) {
        shapes_below_home(path, around, ".android/avd"@, 3);
    } else if is_below_home(path, around, "Library/Containers/com.docker.docker/Data"@) {
        shapes_below_home(path, around, "Library/Containers/com.docker.docker/Data"@, 4);
    } else if is_below_home(path, around, ".local/share/docker"@) {
        shapes_below_home(path, around, ".local/share/docker"@, 6);
    } else if is_below_home(path, around, ".local/share/Trash"@) {
        shapes_below_home(path, around, ".local/share/Trash"@, 5);
    } else if is_below_home(path, around, ".Trash"@) {
        shapes_below_home(path, around, ".Trash"@, 6);
    } else {
        let whole = encode_utf8("/var/lib/docker"@);
        vstd::utf8::is_ascii_chars_encode_utf8("/var/lib/docker"@);
        vstd::utf8::is_ascii_chars_encode_utf8("var/lib/docker"@);
        assert("/var/lib/docker"@[0] as u8 == whole[0]);
        assert forall|i: int| 0 <= i < 14 implies #[trigger] whole[i + 1] == encode_utf8(
            "var/lib/docker"@,
        )[i] by {
            assert("/var/lib/docker"@[i + 1] == "var/lib/docker"@[i]);
            assert("/var/lib/docker"@[i + 1] as u8 == whole[i + 1]);
            assert("var/lib/docker"@[i] as u8 == encode_utf8("var/lib/docker"@)[i]);
        }
        the_last_name(seq![47u8], "var/lib/docker"@, 6);
        assert(encode_utf8("var/lib/docker"@)[0] == 118) by {
            assert("var/lib/docker"@[0] as u8 == encode_utf8("var/lib/docker"@)[0]);
        }
        assert(path::joined(seq![47u8], encode_utf8("var/lib/docker"@)) =~= whole);
        same_place_same_shape(path, whole);
    }
}

#[verifier::rlimit(40)]
proof fn what_comes_back_has_another_shape(path: Seq<u8>, around: Around)
    requires
        comes_back(path, around),
    ensures
        path::file_name(path) is Some ==> !shape_of_data(shape(path)),
{
    reveal_strlit("Library/Developer/Xcode/DerivedData");
    reveal_strlit("Library/Developer/Xcode/iOS DeviceSupport");
    reveal_strlit("Library/Developer/CoreSimulator/Caches");
    reveal_strlit("Library/Caches/org.swift.swiftpm");
    reveal_strlit("Library/Caches/CocoaPods");
    reveal_strlit(".gradle/caches");
    reveal_strlit(".gradle/wrapper/dists");
    reveal_strlit(".m2/repository");
    reveal_strlit(".npm/_cacache");
    reveal_strlit(".cache/yarn");
    reveal_strlit("Library/Caches/Yarn");
    reveal_strlit("Library/pnpm/store");
    reveal_strlit(".local/share/pnpm/store");
    reveal_strlit(".cargo/registry/cache");
    reveal_strlit(".cargo/git");
    reveal_strlit("go/pkg/mod");
    reveal_strlit(".cache/go-build");
    reveal_strlit(".cache/pip");
    reveal_strlit("Library/Caches/pip");
    reveal_strlit(".ccache");
    reveal_strlit("Library/Caches/Homebrew");
    reveal_strlit("target");
    reveal_strlit("node_modules");
    reveal_strlit(".venv");
    reveal_strlit("__pycache__");
    if is_below_home(path, around, "Library/Developer/Xcode/DerivedData"@) {
        shapes_below_home(path, around, "Library/Developer/Xcode/DerivedData"@, 11);
    } else if is_below_home(path, around, "Library/Developer/Xcode/iOS DeviceSupport"@) {
        shapes_below_home(path, around, "Library/Developer/Xcode/iOS DeviceSupport"@, 17);
    } else if is_below_home(path, around, "Library/Developer/CoreSimulator/Caches"@) {
        shapes_below_home(path, around, "Library/Developer/CoreSimulator/Caches"@, 6);
    } else if is_below_home(path, around, "Library/Caches/org.swift.swiftpm"@) {
        shapes_below_home(path, around, "Library/Caches/org.swift.swiftpm"@, 17);
    } else if is_below_home(path, around, "Library/Caches/CocoaPods"@) {
        shapes_below_home(path, around, "Library/Caches/CocoaPods"@, 9);
    } else if is_below_home(path, around, ".gradle/caches"@) {
        shapes_below_home(path, around, ".gradle/caches"@, 6);
    } else if is_below_home(path, around, ".gradle/wrapper/dists"@) {
        shapes_below_home(path, around, ".gradle/wrapper/dists"@, 5);
    } else if is_below_home(path, around, ".m2/repository"@) {
        shapes_below_home(path, around, ".m2/repository"@, 10);
    } else if is_below_home(path, around, ".npm/_cacache"@) {
        shapes_below_home(path, around, ".npm/_cacache"@, 8);
    } else if is_below_home(path, around, ".cache/yarn"@) {
        shapes_below_home(path, around, ".cache/yarn"@, 4);
    } else if is_below_home(path, around, "Library/Caches/Yarn"@) {
        shapes_below_home(path, around, "Library/Caches/Yarn"@, 4);
    } else if is_below_home(path, around, "Library/pnpm/store"@) {
        shapes_below_home(path, around, "Library/pnpm/store"@, 5);
    } else if is_below_home(path, around, ".local/share/pnpm/store"@) {
        shapes_below_home(path, around, ".local/share/pnpm/store"@, 5);
    } else if is_below_home(path, around, ".cargo/registry/cache"@) {
        shapes_below_home(path, around, ".cargo/registry/cache"@, 5);
    } else if is_below_home(path, around, ".cargo/git"@) {
        shapes_below_home(path, around, ".cargo/git"@, 3);
    } else if is_below_home(path, around, "go/pkg/mod"@) {
        shapes_below_home(path, around, "go/pkg/mod"@, 3);
    } else if is_below_home(path, around, ".cache/go-build"@) {
        shapes_below_home(path, around, ".cache/go-build"@, 8);
    } else if is_below_home(path, around, ".cache/pip"@) {
        shapes_below_home(path, around, ".cache/pip"@, 3);
    } else if is_below_home(path, around, "Library/Caches/pip"@) {
        shapes_below_home(path, around, "Library/Caches/pip"@, 3);
    } else if is_below_home(path, around, ".ccache"@) {
        shapes_below_home(path, around, ".ccache"@, 7);
    } else if is_below_home(path, around, "Library/Caches/Homebrew"@) {
        shapes_below_home(path, around, "Library/Caches/Homebrew"@, 8);
    } else if is_beside(path, around, "target"@, "Cargo.toml"@) {
        shapes_of_names(path, "target"@);
    } else if is_beside(path, around, "node_modules"@, "package.json"@) {
        shapes_of_names(path, "node_modules"@);
    } else if path::file_name(path) == Some(encode_utf8(".venv"@)) {
        shapes_of_names(path, ".venv"@);
    } else {
        shapes_of_names(path, "__pycache__"@);
    }
}

/// What may hold data is recognised and to be reviewed first, whatever the home directory is and
/// whatever stands around it: it is never called safe to regenerate.
pub proof fn data_is_never_called_safe(path: Seq<u8>, around: Around)
    requires
        may_hold_data(path, around),
    ensures
        categories::rule_for(path, around) is Some,
        categories::rule_for(path, around)->0.safety == Safety::ReviewFirst,
{
    the_lists_are_recognised(path, around);
    if categories::rule_for(path, around)->0.safety == Safety::Regenerable {
        only_what_comes_back_is_safe(path, around);
        data_has_its_shape(path, around);
        what_comes_back_has_another_shape(path, around);
    }
}

/// Narrowing to what is safe keeps what is called safe to regenerate and nothing else, and narrowing
/// to what is idle keeps what nobody touched for as long as was asked.
pub proof fn narrowing_keeps_what_was_asked_for(
    group: Category,
    safe_only: bool,
    idle: Option<u64>,
    now: u64,
)
    ensures
        commands::stays(group, safe_only, idle, now) <==> {
            &&& !safe_only || group.rule.safety == Safety::Regenerable
            &&& match idle {
                None => true,
                Some(seconds) => seconds == 0 || group.last_used + seconds <= now,
            }
        },
{
}

/// Whether a walk gets to an entry: everything above it is a directory that no rule claims.
pub open spec fn is_reached(
    tree: Tree,
    at: Seq<u8>,
    around: Around,
    entry: Tree,
    place: Seq<u8>,
) -> bool
    decreases tree,
{
    ||| tree == entry && at == place
    ||| {
        &&& tree.entry_type == EntryType::Directory
        &&& categories::rule_for(at, around) is None
        &&& exists|i: int|
            0 <= i < tree.children.len() && is_reached(
                #[trigger] tree.children[i],
                path::joined(at, tree::own_name(tree.children[i].name)),
                around,
                entry,
                place,
            )
    }
}

/// What an entry takes up, by blocks or by lengths.
pub open spec fn bytes_of(entry: Tree, kind: SizeKind) -> u64 {
    match kind {
        SizeKind::Allocated => entry.allocated_size,
        SizeKind::Apparent => entry.apparent_size,
    }
}

/// Whether a find is what it should be: a directory that a rule claims and that is not empty, with
/// its size and the time of the newest change in it.
pub open spec fn is_proper_find(
    find: Find,
    tree: Tree,
    at: Seq<u8>,
    kind: SizeKind,
    around: Around,
) -> bool {
    exists|entry: Tree|
        {
            &&& #[trigger] is_reached(tree, at, around, entry, find.path)
            &&& entry.entry_type == EntryType::Directory
            &&& find.size == bytes_of(entry, kind)
            &&& find.size > 0
            &&& find.last_used == entry.modified
            &&& categories::rule_for(find.path, around) == Some(find.rule)
        }
}

proof fn finds_are_proper(
    tree: Tree,
    at: Seq<u8>,
    kind: SizeKind,
    around: Around,
    find: Find,
)
    requires
        categories::reclaimable(tree, at, kind, around).contains(find),
    ensures
        is_proper_find(find, tree, at, kind, around),
    decreases tree, 1nat, 0nat,
{
    let all = categories::reclaimable(tree, at, kind, around);
    let k = choose|k: int| 0 <= k < all.len() && all[k] == find;
    if categories::rule_for(at, around) is Some {
        assert(is_reached(tree, at, around, tree, at));
    } else {
        let i = finds_below_are_proper(tree, tree.children.len(), at, kind, around, find);
        let child = tree.children[i];
        let place = path::joined(at, tree::own_name(child.name));
        let entry = choose|entry: Tree|
            {
                &&& #[trigger] is_reached(child, place, around, entry, find.path)
                &&& entry.entry_type == EntryType::Directory
                &&& find.size == bytes_of(entry, kind)
                &&& find.size > 0
                &&& find.last_used == entry.modified
                &&& categories::rule_for(find.path, around) == Some(find.rule)
            };
        assert(is_reached(tree, at, around, entry, find.path));
    }
}

proof fn finds_below_are_proper(
    tree: Tree,
    count: nat,
    at: Seq<u8>,
    kind: SizeKind,
    around: Around,
    find: Find,
) -> (i: int)
    requires
        count <= tree.children.len(),
        categories::reclaimable_below(tree, count, at, kind, around).contains(find),
    ensures
        0 <= i < count,
        is_proper_find(
            find,
            tree.children[i],
            path::joined(at, tree::own_name(tree.children[i].name)),
            kind,
            around,
        ),
    decreases tree, 0nat, count,
{
    let all = categories::reclaimable_below(tree, count, at, kind, around);
    let before = categories::reclaimable_below(tree, (count - 1) as nat, at, kind, around);
    let k = choose|k: int| 0 <= k < all.len() && all[k] == find;
    if k < before.len() {
        assert(before[k] == find);
        finds_below_are_proper(tree, (count - 1) as nat, at, kind, around, find)
    } else {
        let child = tree.children[count - 1];
        let place = path::joined(at, tree::own_name(child.name));
        let here = categories::reclaimable(child, place, kind, around);
        assert(here[k - before.len()] == find);
        finds_are_proper(child, place, kind, around, find);
        count - 1
    }
}

proof fn reached_are_found(
    tree: Tree,
    at: Seq<u8>,
    kind: SizeKind,
    around: Around,
    entry: Tree,
    place: Seq<u8>,
)
    requires
        is_reached(tree, at, around, entry, place),
        entry.entry_type == EntryType::Directory,
        bytes_of(entry, kind) > 0,
        categories::rule_for(place, around) is Some,
    ensures
        categories::reclaimable(tree, at, kind, around).contains(
            Find {
                path: place,
                size: bytes_of(entry, kind),
                rule: categories::rule_for(place, around)->0,
                last_used: entry.modified,
            },
        ),
    decreases tree,
{
    let find = Find {
        path: place,
        size: bytes_of(entry, kind),
        rule: categories::rule_for(place, around)->0,
        last_used: entry.modified,
    };
    let all = categories::reclaimable(tree, at, kind, around);
    if tree == entry && at == place {
        assert(all[0] == find);
    } else {
        let i = choose|i: int|
            0 <= i < tree.children.len() && is_reached(
                #[trigger] tree.children[i],
                path::joined(at, tree::own_name(tree.children[i].name)),
                around,
                entry,
                place,
            );
        let child = tree.children[i];
        let spot = path::joined(at, tree::own_name(child.name));
        reached_are_found(child, spot, kind, around, entry, place);
        found_below(tree, tree.children.len(), at, kind, around, i, find);
    }
}

proof fn found_below(
    tree: Tree,
    count: nat,
    at: Seq<u8>,
    kind: SizeKind,
    around: Around,
    i: int,
    find: Find,
)
    requires
        0 <= i < count <= tree.children.len(),
        categories::reclaimable(
            tree.children[i],
            path::joined(at, tree::own_name(tree.children[i].name)),
            kind,
            around,
        ).contains(find),
    ensures
        categories::reclaimable_below(tree, count, at, kind, around).contains(find),
    decreases count,
{
    let all = categories::reclaimable_below(tree, count, at, kind, around);
    let before = categories::reclaimable_below(tree, (count - 1) as nat, at, kind, around);
    if i < count - 1 {
        found_below(tree, (count - 1) as nat, at, kind, around, i, find);
        let k = choose|k: int| 0 <= k < before.len() && before[k] == find;
        assert(all[k] == find);
    } else {
        let here = categories::reclaimable(
            tree.children[i],
            path::joined(at, tree::own_name(tree.children[i].name)),
            kind,
            around,
        );
        let k = choose|k: int| 0 <= k < here.len() && here[k] == find;
        assert(all[before.len() + k] == find);
    }
}

/// What is found in a tree are the directories that a rule claims and that take something up, each
/// with its size, its rule and when it was last used, except inside one that is found already; the
/// largest come first.
pub proof fn caches_are_found(tree: Tree, kind: SizeKind, around: Around)
    ensures
        ({
            let found = categories::all_reclaimable(tree, kind, around);
            &&& forall|i: int|
                0 <= i < found.len() ==> is_proper_find(
                    #[trigger] found[i],
                    tree,
                    tree.name,
                    kind,
                    around,
                )
            &&& forall|i: int, j: int|
                0 <= i < j < found.len() ==> (#[trigger] found[i]).size >= (
                #[trigger] found[j]).size
            &&& forall|entry: Tree, place: Seq<u8>| #[trigger]
                is_reached(tree, tree.name, around, entry, place) && entry.entry_type
                    == EntryType::Directory && bytes_of(entry, kind) > 0 && categories::rule_for(
                    place,
                    around,
                ) is Some ==> found.contains(
                    Find {
                        path: place,
                        size: bytes_of(entry, kind),
                        rule: categories::rule_for(place, around)->0,
                        last_used: entry.modified,
                    },
                )
        }),
{
    let given = categories::reclaimable(tree, tree.name, kind, around);
    let less = |a: Find, b: Find| a.size > b.size;
    let found = categories::all_reclaimable(tree, kind, around);
    order::sort_keeps_members(given, less);
    order::sort_orders(given, less);
    order::sort_is_a_permutation(given, less);
    assert forall|i: int| 0 <= i < found.len() implies is_proper_find(
        #[trigger] found[i],
        tree,
        tree.name,
        kind,
        around,
    ) by {
        assert(found.contains(found[i]));
        finds_are_proper(tree, tree.name, kind, around, found[i]);
    }
    assert forall|i: int, j: int| 0 <= i < j < found.len() implies (#[trigger] found[i]).size >= (
    #[trigger] found[j]).size by {
        assert(!less(found[j], found[i]));
    }
    assert forall|entry: Tree, place: Seq<u8>| #[trigger]
        is_reached(tree, tree.name, around, entry, place) && entry.entry_type
            == EntryType::Directory && bytes_of(entry, kind) > 0 && categories::rule_for(
            place,
            around,
        ) is Some implies found.contains(
        Find {
            path: place,
            size: bytes_of(entry, kind),
            rule: categories::rule_for(place, around)->0,
            last_used: entry.modified,
        },
    ) by {
        reached_are_found(tree, tree.name, kind, around, entry, place);
    }
}

/// Whether every group holds finds of its own rule alone, and has a rule that one of them has.
spec fn groups_are_by_rule(groups: Seq<Category>, found: Seq<Find>) -> bool {
    forall|g: int|
        0 <= g < groups.len() ==> {
            &&& #[trigger] has_find(found, groups[g].rule)
            &&& forall|p: int|
                0 <= p < groups[g].paths.len() ==> has_path(
                    found,
                    #[trigger] groups[g].paths[p],
                    groups[g].rule.id@,
                )
        }
}

spec fn has_find(found: Seq<Find>, rule: Rule) -> bool {
    exists|k: int| 0 <= k < found.len() && (#[trigger] found[k]).rule == rule
}

spec fn has_path(found: Seq<Find>, place: Seq<u8>, id: Seq<char>) -> bool {
    exists|k: int|
        0 <= k < found.len() && (#[trigger] found[k]).path == place && found[k].rule.id@ == id
}

proof fn more_finds(found: Seq<Find>, last: Find, rule: Rule, place: Seq<u8>, id: Seq<char>)
    ensures
        has_find(found, rule) ==> has_find(found.push(last), rule),
        has_path(found, place, id) ==> has_path(found.push(last), place, id),
        has_find(found.push(last), last.rule),
        has_path(found.push(last), last.path, last.rule.id@),
{
    let more = found.push(last);
    assert(more[found.len() as int] == last);
    if has_find(found, rule) {
        let k = choose|k: int| 0 <= k < found.len() && (#[trigger] found[k]).rule == rule;
        assert(more[k] == found[k]);
    }
    if has_path(found, place, id) {
        let k = choose|k: int|
            0 <= k < found.len() && (#[trigger] found[k]).path == place && found[k].rule.id@ == id;
        assert(more[k] == found[k]);
    }
}

proof fn group_positions(groups: Seq<Category>, id: Seq<char>)
    ensures
        categories::group_of(groups, id) matches Some(at) ==> 0 <= at < groups.len()
            && groups[at].rule.id@ == id,
    decreases groups.len(),
{
    if groups.len() > 0 {
        group_positions(groups.drop_last(), id);
    }
}

proof fn gathering_goes_by_rule(found: Seq<Find>)
    ensures
        groups_are_by_rule(categories::gathered(found), found),
    decreases found.len(),
{
    if found.len() > 0 {
        let front = found.drop_last();
        let last = found.last();
        let before = categories::gathered(front);
        let groups = categories::gathered(found);
        gathering_goes_by_rule(front);
        group_positions(before, last.rule.id@);
        assert(front.push(last) =~= found);
        assert forall|g: int| 0 <= g < groups.len() implies {
            &&& #[trigger] has_find(found, groups[g].rule)
            &&& forall|p: int|
                0 <= p < groups[g].paths.len() ==> has_path(
                    found,
                    #[trigger] groups[g].paths[p],
                    groups[g].rule.id@,
                )
        } by {
            let group = groups[g];
            if g < before.len() {
                assert(has_find(front, before[g].rule));
                assert(group.rule == before[g].rule);
            }
            more_finds(front, last, group.rule, last.path, last.rule.id@);
            assert forall|p: int| 0 <= p < group.paths.len() implies has_path(
                found,
                #[trigger] group.paths[p],
                group.rule.id@,
            ) by {
                more_finds(front, last, group.rule, group.paths[p], group.rule.id@);
                if g < before.len() && p < before[g].paths.len() {
                    assert(has_path(front, before[g].paths[p], before[g].rule.id@));
                }
            }
        }
    }
}

/// Narrowed to what is safe, cleaning goes nowhere near data: every path that is left is a place that
/// a tool fills again by itself, and none is a place that may hold what nothing brings back.
pub proof fn safe_cleaning_keeps_off_data(
    tree: Tree,
    kind: SizeKind,
    around: Around,
    idle: Option<u64>,
    now: u64,
    group: Category,
    p: int,
)
    requires
        categories::grouped(categories::all_reclaimable(tree, kind, around)).contains(group),
        commands::stays(group, true, idle, now),
        0 <= p < group.paths.len(),
    ensures
        comes_back(group.paths[p], around),
        !may_hold_data(group.paths[p], around),
{
    let found = categories::all_reclaimable(tree, kind, around);
    let groups = categories::gathered(found);
    let less = |a: Category, b: Category| a.size > b.size;
    order::sort_keeps_members(groups, less);
    gathering_goes_by_rule(found);
    caches_are_found(tree, kind, around);
    let g = choose|g: int| 0 <= g < groups.len() && groups[g] == group;
    assert(has_find(found, groups[g].rule));
    let k = choose|k: int| 0 <= k < found.len() && (#[trigger] found[k]).rule == group.rule;
    let m = choose|m: int|
        0 <= m < found.len() && (#[trigger] found[m]).path == group.paths[p] && found[m].rule.id@
            == group.rule.id@;
    assert(has_path(found, groups[g].paths[p], groups[g].rule.id@));
    assert(is_proper_find(found[k], tree, tree.name, kind, around));
    assert(is_proper_find(found[m], tree, tree.name, kind, around));
    let table = categories::rule_table();
    let i = first_claims(table, found[k].path, around);
    let j = first_claims(table, found[m].path, around);
    categories::rule_ids_are_unique();
    assert(table[i].id@ == table[j].id@);
    assert(i == j);
    only_what_comes_back_is_safe(group.paths[p], around);
    if may_hold_data(group.paths[p], around) {
        data_is_never_called_safe(group.paths[p], around);
    }
}

/// Groups come with the largest first.
pub proof fn groups_come_by_size(found: Seq<Find>, i: int, j: int)
    requires
        0 <= i < j < categories::grouped(found).len(),
    ensures
        categories::grouped(found)[i].size >= categories::grouped(found)[j].size,
{
    let less = |a: Category, b: Category| a.size > b.size;
    order::sort_orders(categories::gathered(found), less);
    order::sort_is_a_permutation(categories::gathered(found), less);
    assert(!less(categories::grouped(found)[j], categories::grouped(found)[i]));
}

} // verus!
