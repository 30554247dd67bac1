//! Recognising reclaimable developer storage.
//!
//! "This folder is 28 GB" is a fact. "This is Xcode's build cache, Xcode will rebuild it, and
//! nothing has touched it since March" is a decision you can actually make. Every rule here
//! carries four things: what produced it, whether removing it is safe, what would regenerate it,
//! and, from the scan's modification times, when it was last used.

use vstd::prelude::*;
use vstd::utf8::encode_utf8;
use crate::order;
use crate::path;
use crate::path::FilePath;
use crate::size::SizeKind;
use crate::strings;
use crate::tree;
use crate::tree::{DiskEntry, EntryType, Tree};

verus! {

#[derive(Copy, Clone, Debug, PartialEq, Eq, Structural)]
pub enum Safety {
    /// Deleting costs time, not data: the tool rebuilds it on demand.
    Regenerable,
    /// Recoverable in principle, but the cost is high enough to look first: a slow re-download, a
    /// re-provisioned emulator, a running container.
    ReviewFirst,
}

pub open spec fn safety_label(safety: Safety) -> Seq<char> {
    match safety {
        Safety::Regenerable => "safe to regenerate"@,
        Safety::ReviewFirst => "review first"@,
    }
}

impl Safety {
    pub fn label(self) -> (label: &'static str)
        ensures
            label@ == safety_label(self),
    {
        match self {
            Safety::Regenerable => "safe to regenerate",
            Safety::ReviewFirst => "review first",
        }
    }
}

/// How a path is recognised as belonging to a category.
#[derive(Copy, Clone, Debug)]
pub enum Matcher {
    /// A fixed path below the user's home directory.
    Home(&'static str),
    /// A fixed absolute path.
    Absolute(&'static str),
    /// A directory of this name anywhere, but only when a sibling file proves what produced it,
    /// where one is asked for.
    Named { name: &'static str, sibling: Option<&'static str> },
}

#[derive(Copy, Clone, Debug)]
pub struct Rule {
    pub id: &'static str,
    /// What a person would call it: "Xcode DerivedData".
    pub label: &'static str,
    pub safety: Safety,
    /// The command that brings it back, when there is one.
    pub regenerate: Option<&'static str>,
    pub matcher: Matcher,
}

/// A rule for a fixed path below the user's home directory.
#[verifier::allow_in_spec]
pub fn home(
    id: &'static str,
    label: &'static str,
    path: &'static str,
    safety: Safety,
    regenerate: Option<&'static str>,
) -> Rule
    returns
        (Rule { id, label, safety, regenerate, matcher: Matcher::Home(path) }),
{
    Rule { id, label, safety, regenerate, matcher: Matcher::Home(path) }
}

/// A rule for a fixed absolute path.
#[verifier::allow_in_spec]
pub fn absolute(
    id: &'static str,
    label: &'static str,
    path: &'static str,
    safety: Safety,
    regenerate: Option<&'static str>,
) -> Rule
    returns
        (Rule { id, label, safety, regenerate, matcher: Matcher::Absolute(path) }),
{
    Rule { id, label, safety, regenerate, matcher: Matcher::Absolute(path) }
}

/// A rule for a directory of one name anywhere.
#[verifier::allow_in_spec]
pub fn named(
    id: &'static str,
    label: &'static str,
    name: &'static str,
    sibling: Option<&'static str>,
    safety: Safety,
    regenerate: Option<&'static str>,
) -> Rule
    returns
        (Rule { id, label, safety, regenerate, matcher: Matcher::Named { name, sibling } }),
{
    Rule { id, label, safety, regenerate, matcher: Matcher::Named { name, sibling } }
}

/// The rules, most specific first: the first one that matches wins.
#[verifier::opaque]
pub open spec fn rule_table() -> Seq<Rule> {
    seq![
        // Apple / Xcode
        home("xcode-derived-data", "Xcode DerivedData", "Library/Developer/Xcode/DerivedData", Safety::Regenerable, Some("rebuild in Xcode")),
        home("xcode-device-support", "iOS DeviceSupport", "Library/Developer/Xcode/iOS DeviceSupport", Safety::Regenerable, Some("reconnect the device")),
        home("xcode-archives", "Xcode archives", "Library/Developer/Xcode/Archives", Safety::ReviewFirst, None),
        home("coresimulator-caches", "Simulator caches", "Library/Developer/CoreSimulator/Caches", Safety::Regenerable, Some("relaunch the simulator")),
        home("coresimulator-devices", "Simulator devices", "Library/Developer/CoreSimulator/Devices", Safety::ReviewFirst, Some("xcrun simctl delete unavailable")),
        home("swiftpm-cache", "SwiftPM cache", "Library/Caches/org.swift.swiftpm", Safety::Regenerable, Some("swift package resolve")),
        home("cocoapods-cache", "CocoaPods cache", "Library/Caches/CocoaPods", Safety::Regenerable, Some("pod install")),
        // JVM
        home("gradle-caches", "Gradle caches", ".gradle/caches", Safety::Regenerable, Some("./gradlew build")),
        home("gradle-wrapper", "Gradle distributions", ".gradle/wrapper/dists", Safety::Regenerable, Some("./gradlew")),
        home("maven-repository", "Maven repository", ".m2/repository", Safety::Regenerable, Some("mvn dependency:go-offline")),
        // Android
        home("android-system-images", "Android system images", "Library/Android/sdk/system-images", Safety::ReviewFirst, Some("sdkmanager")),
        home("android-system-images-linux", "Android system images", "Android/Sdk/system-images", Safety::ReviewFirst, Some("sdkmanager")),
        home("android-avd", "Android emulator images", ".android/avd", Safety::ReviewFirst, Some("recreate the AVD")),
        // JavaScript
        home("npm-cache", "npm cache", ".npm/_cacache", Safety::Regenerable, Some("npm install")),
        home("yarn-cache", "Yarn cache", ".cache/yarn", Safety::Regenerable, Some("yarn install")),
        home("yarn-cache-macos", "Yarn cache", "Library/Caches/Yarn", Safety::Regenerable, Some("yarn install")),
        home("pnpm-store", "pnpm store", "Library/pnpm/store", Safety::Regenerable, Some("pnpm install")),
        home("pnpm-store-linux", "pnpm store", ".local/share/pnpm/store", Safety::Regenerable, Some("pnpm install")),
        // Rust
        home("cargo-registry-cache", "Cargo registry cache", ".cargo/registry/cache", Safety::Regenerable, Some("cargo fetch")),
        home("cargo-git", "Cargo git checkouts", ".cargo/git", Safety::Regenerable, Some("cargo fetch")),
        // Go
        home("go-module-cache", "Go module cache", "go/pkg/mod", Safety::Regenerable, Some("go mod download")),
        home("go-build-cache", "Go build cache", ".cache/go-build", Safety::Regenerable, Some("go build")),
        // Python
        home("pip-cache", "pip cache", ".cache/pip", Safety::Regenerable, Some("pip install")),
        home("pip-cache-macos", "pip cache", "Library/Caches/pip", Safety::Regenerable, Some("pip install")),
        // Containers
        home("docker-desktop", "Docker Desktop data", "Library/Containers/com.docker.docker/Data", Safety::ReviewFirst, Some("docker system prune")),
        home("docker-linux", "Docker data", ".local/share/docker", Safety::ReviewFirst, Some("docker system prune")),
        absolute("docker-var-lib", "Docker data", "/var/lib/docker", Safety::ReviewFirst, Some("docker system prune")),
        // Compiler and package caches
        home("ccache", "ccache", ".ccache", Safety::Regenerable, Some("rebuild")),
        home("homebrew-cache", "Homebrew downloads", "Library/Caches/Homebrew", Safety::Regenerable, Some("brew cleanup")),
        // Trash
        home("trash-linux", "Trash", ".local/share/Trash", Safety::ReviewFirst, None),
        home("trash-macos", "Trash", ".Trash", Safety::ReviewFirst, None),
        // Per-project build output. These need a sibling manifest as proof, or every directory
        // called `target` or `build` would match.
        named("rust-target", "Rust target directories", "target", Some("Cargo.toml"), Safety::Regenerable, Some("cargo build")),
        named("node-modules", "node_modules", "node_modules", Some("package.json"), Safety::Regenerable, Some("npm install")),
        named("python-venv", "Python virtualenvs", ".venv", None, Safety::Regenerable, Some("python -m venv .venv")),
        named("pycache", "Python bytecode caches", "__pycache__", None, Safety::Regenerable, Some("re-run the code")),
    ]
}

/// Every rule, most specific first: the first one that matches wins.
pub fn rules() -> (out: Vec<Rule>)
    ensures
        out@ == rule_table(),
{
    let out = vec![
        home("xcode-derived-data", "Xcode DerivedData", "Library/Developer/Xcode/DerivedData", Safety::Regenerable, Some("rebuild in Xcode")),
        home("xcode-device-support", "iOS DeviceSupport", "Library/Developer/Xcode/iOS DeviceSupport", Safety::Regenerable, Some("reconnect the device")),
        home("xcode-archives", "Xcode archives", "Library/Developer/Xcode/Archives", Safety::ReviewFirst, None),
        home("coresimulator-caches", "Simulator caches", "Library/Developer/CoreSimulator/Caches", Safety::Regenerable, Some("relaunch the simulator")),
        home("coresimulator-devices", "Simulator devices", "Library/Developer/CoreSimulator/Devices", Safety::ReviewFirst, Some("xcrun simctl delete unavailable")),
        home("swiftpm-cache", "SwiftPM cache", "Library/Caches/org.swift.swiftpm", Safety::Regenerable, Some("swift package resolve")),
        home("cocoapods-cache", "CocoaPods cache", "Library/Caches/CocoaPods", Safety::Regenerable, Some("pod install")),
        home("gradle-caches", "Gradle caches", ".gradle/caches", Safety::Regenerable, Some("./gradlew build")),
        home("gradle-wrapper", "Gradle distributions", ".gradle/wrapper/dists", Safety::Regenerable, Some("./gradlew")),
        home("maven-repository", "Maven repository", ".m2/repository", Safety::Regenerable, Some("mvn dependency:go-offline")),
        home("android-system-images", "Android system images", "Library/Android/sdk/system-images", Safety::ReviewFirst, Some("sdkmanager")),
        home("android-system-images-linux", "Android system images", "Android/Sdk/system-images", Safety::ReviewFirst, Some("sdkmanager")),
        home("android-avd", "Android emulator images", ".android/avd", Safety::ReviewFirst, Some("recreate the AVD")),
        home("npm-cache", "npm cache", ".npm/_cacache", Safety::Regenerable, Some("npm install")),
        home("yarn-cache", "Yarn cache", ".cache/yarn", Safety::Regenerable, Some("yarn install")),
        home("yarn-cache-macos", "Yarn cache", "Library/Caches/Yarn", Safety::Regenerable, Some("yarn install")),
        home("pnpm-store", "pnpm store", "Library/pnpm/store", Safety::Regenerable, Some("pnpm install")),
        home("pnpm-store-linux", "pnpm store", ".local/share/pnpm/store", Safety::Regenerable, Some("pnpm install")),
        home("cargo-registry-cache", "Cargo registry cache", ".cargo/registry/cache", Safety::Regenerable, Some("cargo fetch")),
        home("cargo-git", "Cargo git checkouts", ".cargo/git", Safety::Regenerable, Some("cargo fetch")),
        home("go-module-cache", "Go module cache", "go/pkg/mod", Safety::Regenerable, Some("go mod download")),
        home("go-build-cache", "Go build cache", ".cache/go-build", Safety::Regenerable, Some("go build")),
        home("pip-cache", "pip cache", ".cache/pip", Safety::Regenerable, Some("pip install")),
        home("pip-cache-macos", "pip cache", "Library/Caches/pip", Safety::Regenerable, Some("pip install")),
        home("docker-desktop", "Docker Desktop data", "Library/Containers/com.docker.docker/Data", Safety::ReviewFirst, Some("docker system prune")),
        home("docker-linux", "Docker data", ".local/share/docker", Safety::ReviewFirst, Some("docker system prune")),
        absolute("docker-var-lib", "Docker data", "/var/lib/docker", Safety::ReviewFirst, Some("docker system prune")),
        home("ccache", "ccache", ".ccache", Safety::Regenerable, Some("rebuild")),
        home("homebrew-cache", "Homebrew downloads", "Library/Caches/Homebrew", Safety::Regenerable, Some("brew cleanup")),
        home("trash-linux", "Trash", ".local/share/Trash", Safety::ReviewFirst, None),
        home("trash-macos", "Trash", ".Trash", Safety::ReviewFirst, None),
        named("rust-target", "Rust target directories", "target", Some("Cargo.toml"), Safety::Regenerable, Some("cargo build")),
        named("node-modules", "node_modules", "node_modules", Some("package.json"), Safety::Regenerable, Some("npm install")),
        named("python-venv", "Python virtualenvs", ".venv", None, Safety::Regenerable, Some("python -m venv .venv")),
        named("pycache", "Python bytecode caches", "__pycache__", None, Safety::Regenerable, Some("re-run the code")),
    ];
    proof {
        reveal(rule_table);
    }
    assert(out@ =~= rule_table());
    out
}

spec fn fingerprint(id: Seq<char>) -> (int, char, char) {
    (id.len() as int, id[0], id[id.len() - 5])
}

/// No two rules share an id.
pub proof fn rule_ids_are_unique()
    ensures
        forall|i: int, j: int|
            0 <= i < j < rule_table().len() ==> (#[trigger] rule_table()[i]).id@ != (
            #[trigger] rule_table()[j]).id@,
{
    reveal(rule_table);
    let rules = rule_table();
    reveal_strlit("xcode-derived-data");
    reveal_strlit("xcode-device-support");
    reveal_strlit("xcode-archives");
    reveal_strlit("coresimulator-caches");
    reveal_strlit("coresimulator-devices");
    reveal_strlit("swiftpm-cache");
    reveal_strlit("cocoapods-cache");
    reveal_strlit("gradle-caches");
    reveal_strlit("gradle-wrapper");
    reveal_strlit("maven-repository");
    reveal_strlit("android-system-images");
    reveal_strlit("android-system-images-linux");
    reveal_strlit("android-avd");
    reveal_strlit("npm-cache");
    reveal_strlit("yarn-cache");
    reveal_strlit("yarn-cache-macos");
    reveal_strlit("pnpm-store");
    reveal_strlit("pnpm-store-linux");
    reveal_strlit("cargo-registry-cache");
    reveal_strlit("cargo-git");
    reveal_strlit("go-module-cache");
    reveal_strlit("go-build-cache");
    reveal_strlit("pip-cache");
    reveal_strlit("pip-cache-macos");
    reveal_strlit("docker-desktop");
    reveal_strlit("docker-linux");
    reveal_strlit("docker-var-lib");
    reveal_strlit("ccache");
    reveal_strlit("homebrew-cache");
    reveal_strlit("trash-linux");
    reveal_strlit("trash-macos");
    reveal_strlit("rust-target");
    reveal_strlit("node-modules");
    reveal_strlit("python-venv");
    reveal_strlit("pycache");
    assert(fingerprint(rules[0].id@) == (18int, 'x', '-'));
    assert(fingerprint(rules[1].id@) == (20int, 'x', 'p'));
    assert(fingerprint(rules[2].id@) == (14int, 'x', 'h'));
    assert(fingerprint(rules[3].id@) == (20int, 'c', 'a'));
    assert(fingerprint(rules[4].id@) == (21int, 'c', 'v'));
    assert(fingerprint(rules[5].id@) == (13int, 's', 'c'));
    assert(fingerprint(rules[6].id@) == (15int, 'c', 'c'));
    assert(fingerprint(rules[7].id@) == (13int, 'g', 'a'));
    assert(fingerprint(rules[8].id@) == (14int, 'g', 'a'));
    assert(fingerprint(rules[9].id@) == (16int, 'm', 'i'));
    assert(fingerprint(rules[10].id@) == (21int, 'a', 'm'));
    assert(fingerprint(rules[11].id@) == (27int, 'a', 'l'));
    assert(fingerprint(rules[12].id@) == (11int, 'a', 'd'));
    assert(fingerprint(rules[13].id@) == (9int, 'n', 'c'));
    assert(fingerprint(rules[14].id@) == (10int, 'y', 'c'));
    assert(fingerprint(rules[15].id@) == (16int, 'y', 'm'));
    assert(fingerprint(rules[16].id@) == (10int, 'p', 's'));
    assert(fingerprint(rules[17].id@) == (16int, 'p', 'l'));
    assert(fingerprint(rules[18].id@) == (20int, 'c', 'c'));
    assert(fingerprint(rules[19].id@) == (9int, 'c', 'o'));
    assert(fingerprint(rules[20].id@) == (15int, 'g', 'c'));
    assert(fingerprint(rules[21].id@) == (14int, 'g', 'c'));
    assert(fingerprint(rules[22].id@) == (9int, 'p', 'c'));
    assert(fingerprint(rules[23].id@) == (15int, 'p', 'm'));
    assert(fingerprint(rules[24].id@) == (14int, 'd', 's'));
    assert(fingerprint(rules[25].id@) == (12int, 'd', 'l'));
    assert(fingerprint(rules[26].id@) == (14int, 'd', 'r'));
    assert(fingerprint(rules[27].id@) == (6int, 'c', 'c'));
    assert(fingerprint(rules[28].id@) == (14int, 'h', 'c'));
    assert(fingerprint(rules[29].id@) == (11int, 't', 'l'));
    assert(fingerprint(rules[30].id@) == (11int, 't', 'm'));
    assert(fingerprint(rules[31].id@) == (11int, 'r', 'a'));
    assert(fingerprint(rules[32].id@) == (12int, 'n', 'd'));
    assert(fingerprint(rules[33].id@) == (11int, 'p', '-'));
    assert(fingerprint(rules[34].id@) == (7int, 'p', 'c'));
    assert forall|i: int, j: int| 0 <= i < j < rules.len() implies (#[trigger] rules[i]).id@ != (
    #[trigger] rules[j]).id@ by {
        assert(fingerprint(rules[i].id@) != fingerprint(rules[j].id@));
    }
}

/// Every rule has a label, and anything called safe to regenerate says what regenerates it.
pub proof fn regenerable_rules_say_how()
    ensures
        forall|i: int|
            0 <= i < rule_table().len() ==> (#[trigger] rule_table()[i]).label@.len() > 0 && (
            rule_table()[i].safety == Safety::Regenerable ==> rule_table()[i].regenerate is Some),
{
    reveal(rule_table);
    reveal_strlit("Android emulator images");
    reveal_strlit("Android system images");
    reveal_strlit("Cargo git checkouts");
    reveal_strlit("Cargo registry cache");
    reveal_strlit("CocoaPods cache");
    reveal_strlit("Docker Desktop data");
    reveal_strlit("Docker data");
    reveal_strlit("Go build cache");
    reveal_strlit("Go module cache");
    reveal_strlit("Gradle caches");
    reveal_strlit("Gradle distributions");
    reveal_strlit("Homebrew downloads");
    reveal_strlit("Maven repository");
    reveal_strlit("Python bytecode caches");
    reveal_strlit("Python virtualenvs");
    reveal_strlit("Rust target directories");
    reveal_strlit("Simulator caches");
    reveal_strlit("Simulator devices");
    reveal_strlit("SwiftPM cache");
    reveal_strlit("Trash");
    reveal_strlit("Xcode DerivedData");
    reveal_strlit("Xcode archives");
    reveal_strlit("Yarn cache");
    reveal_strlit("iOS DeviceSupport");
    reveal_strlit("node_modules");
    reveal_strlit("npm cache");
    reveal_strlit("pip cache");
    reveal_strlit("pnpm store");
    reveal_strlit("ccache");
}

/// What classification needs to know of the machine: whose home it is, and which of the files
/// that serve as proof are there.
#[derive(Debug)]
pub struct Surroundings {
    pub home: Option<FilePath>,
    pub present: Vec<FilePath>,
}

/// The same, as values.
#[verifier::ext_equal]
pub struct Around {
    pub home: Option<Seq<u8>>,
    pub present: Seq<Seq<u8>>,
}

impl View for Surroundings {
    type V = Around;

    open spec fn view(&self) -> Around {
        Around {
            home: match self.home {
                Some(home) => Some(home@),
                None => None,
            },
            present: self.present@.map_values(|path: FilePath| path@),
        }
    }
}

/// Whether a file is known to be there.
pub open spec fn is_present(path: Seq<u8>, present: Seq<Seq<u8>>) -> bool {
    exists|i: int| 0 <= i < present.len() && path::same_place(#[trigger] present[i], path)
}

/// Whether a rule claims a path.
///
/// Where a sibling is asked for as proof, it has to sit next to the directory: a `target` beside
/// a `Cargo.toml` is build output, a `target` anywhere else is somebody's data.
pub open spec fn claims(rule: Rule, path: Seq<u8>, around: Around) -> bool {
    match rule.matcher {
        Matcher::Home(relative) => around.home is Some && path::same_place(
            path,
            path::joined(around.home->0, encode_utf8(relative@)),
        ),
        Matcher::Absolute(absolute) => path::same_place(path, encode_utf8(absolute@)),
        Matcher::Named { name, sibling } => {
            &&& path::file_name(path) == Some(encode_utf8(name@))
            &&& match sibling {
                Some(sibling) => path::parent(path) is Some && is_present(
                    path::joined(path::parent(path)->0, encode_utf8(sibling@)),
                    around.present,
                ),
                None => true,
            }
        },
    }
}

/// The first of some rules to claim a path.
pub open spec fn first_claim(rules: Seq<Rule>, path: Seq<u8>, around: Around) -> Option<Rule>
    decreases rules.len(),
{
    if rules.len() == 0 {
        None
    } else if claims(rules[0], path, around) {
        Some(rules[0])
    } else {
        first_claim(rules.skip(1), path, around)
    }
}

/// The rule that claims a path.
pub open spec fn rule_for(path: Seq<u8>, around: Around) -> Option<Rule> {
    first_claim(rule_table(), path, around)
}

/// Whether `rule` claims `path`.
pub fn matches(rule: &Rule, path: &FilePath, around: &Surroundings) -> (yes: bool)
    ensures
        yes == claims(*rule, path@, around@),
{
    match rule.matcher {
        Matcher::Home(relative) => match &around.home {
            Some(home) => path.same(&home.join(&FilePath::new(relative))),
            None => false,
        },
        Matcher::Absolute(absolute) => path.same(&FilePath::new(absolute)),
        Matcher::Named { name, sibling } => {
            match path.file_name() {
                Some(actual) => {
                    if !strings::same_bytes(&actual, name.as_bytes()) {
                        return false;
                    }
                },
                None => return false,
            }
            match sibling {
                Some(sibling) => match path.parent() {
                    Some(parent) => holds_place(
                        &around.present,
                        &parent.join(&FilePath::new(sibling)),
                    ),
                    None => false,
                },
                None => true,
            }
        },
    }
}

/// Whether one of some paths is that place.
pub(crate) fn holds_place(list: &Vec<FilePath>, place: &FilePath) -> (yes: bool)
    ensures
        yes == is_present(place@, list@.map_values(|path: FilePath| path@)),
{
    let ghost values = list@.map_values(|path: FilePath| path@);
    let mut at: usize = 0;
    while at < list.len()
        invariant
            at <= list.len(),
            values == list@.map_values(|path: FilePath| path@),
            forall|i: int| 0 <= i < at ==> !path::same_place(#[trigger] values[i], place@),
        decreases list.len() - at,
    {
        assert(values[at as int] == list@[at as int]@);
        if list[at].same(place) {
            return true;
        }
        at += 1;
    }
    false
}

fn find_rule(rules: &Vec<Rule>, path: &FilePath, around: &Surroundings) -> (found: Option<Rule>)
    ensures
        found == first_claim(rules@, path@, around@),
{
    let mut at: usize = 0;
    assert(rules@.skip(0) =~= rules@);
    while at < rules.len()
        invariant
            at <= rules.len(),
            first_claim(rules@, path@, around@) == first_claim(
                rules@.skip(at as int),
                path@,
                around@,
            ),
        decreases rules.len() - at,
    {
        assert(rules@.skip(at as int).skip(1) =~= rules@.skip(at + 1));
        if matches(&rules[at], path, around) {
            return Some(rules[at]);
        }
        at += 1;
    }
    None
}

/// The rule that claims `path`, if any.
pub fn classify(path: &FilePath, around: &Surroundings) -> (rule: Option<Rule>)
    ensures
        rule == rule_for(path@, around@),
{
    find_rule(&rules(), path, around)
}

#[derive(Debug)]
pub struct Candidate {
    pub path: FilePath,
    pub size: u64,
    pub rule: Rule,
    /// Newest modification anywhere inside, as seconds since the Unix epoch.
    pub last_used: u64,
}

/// A candidate as a value.
#[verifier::ext_equal]
pub struct Find {
    pub path: Seq<u8>,
    pub size: u64,
    pub rule: Rule,
    pub last_used: u64,
}

impl View for Candidate {
    type V = Find;

    open spec fn view(&self) -> Find {
        Find { path: self.path@, size: self.size, rule: self.rule, last_used: self.last_used }
    }
}

/// The candidates of a list, as values.
pub open spec fn finds(list: Seq<Candidate>) -> Seq<Find> {
    list.map_values(|candidate: Candidate| candidate@)
}

impl Candidate {
    /// Seconds since anything in here was touched.
    pub fn idle_for(&self, now: u64) -> (seconds: u64)
        ensures
            seconds == tree::less_by(now, self.last_used),
    {
        now.saturating_sub(self.last_used)
    }
}

/// Every reclaimable thing in a tree, in the order it is walked.
///
/// Once a directory is claimed, its children are not searched: a `node_modules` inside a `target`
/// is already counted by the `target`. An empty cache is not worth mentioning.
pub open spec fn reclaimable(tree: Tree, at: Seq<u8>, kind: SizeKind, around: Around) -> Seq<Find>
    decreases tree, 1nat, 0nat,
{
    if tree.entry_type != EntryType::Directory {
        Seq::empty()
    } else {
        match rule_for(at, around) {
            Some(rule) => if tree::size_of(tree, kind) > 0 {
                seq![
                    Find {
                        path: at,
                        size: tree::size_of(tree, kind),
                        rule,
                        last_used: tree.modified,
                    },
                ]
            } else {
                Seq::empty()
            },
            None => reclaimable_below(tree, tree.children.len(), at, kind, around),
        }
    }
}

/// The same, of the first `count` children.
pub open spec fn reclaimable_below(
    tree: Tree,
    count: nat,
    at: Seq<u8>,
    kind: SizeKind,
    around: Around,
) -> Seq<Find>
    decreases tree, 0nat, count,
{
    if count == 0 || count > tree.children.len() {
        Seq::empty()
    } else {
        let child = tree.children[count - 1];
        reclaimable_below(tree, (count - 1) as nat, at, kind, around) + reclaimable(
            child,
            path::joined(at, tree::own_name(child.name)),
            kind,
            around,
        )
    }
}

/// Every reclaimable thing in a tree, largest first.
pub open spec fn all_reclaimable(tree: Tree, kind: SizeKind, around: Around) -> Seq<Find> {
    order::stable_sort(
        reclaimable(tree, tree.name, kind, around),
        |a: Find, b: Find| a.size > b.size,
    )
}

/// Every reclaimable thing in `tree`, largest first.
///
/// Once a directory matches, its children are not searched: a `node_modules` inside a `target` is
/// already counted by the `target`.
pub fn find_reclaimable_from(tree: &DiskEntry, kind: SizeKind, around: &Surroundings) -> (out: Vec<
    Candidate,
>)
    ensures
        finds(out@) == all_reclaimable(tree@, kind, around@),
{
    let rules = rules();
    let mut found: Vec<Candidate> = Vec::new();
    walk(&tree.root_path(), tree, kind, &rules, around, &mut found);
    let ghost key = |candidate: Candidate| candidate@;
    let ghost less = |a: Find, b: Find| a.size > b.size;
    proof {
        assert(finds(found@) =~= reclaimable(tree@, tree@.name, kind, around@));
        order::order_by_key(key, less);
        order::sort_maps(found@, key, less);
    }
    let bigger = |a: &Candidate, b: &Candidate| -> (yes: bool)
        ensures
            yes == (a.size > b.size),
        { a.size > b.size };
    order::sort_stably(
        found,
        &bigger,
        Ghost(|a: Candidate, b: Candidate| less(key(a), key(b))),
    )
}

/// `path` is where the walk has got to; entries below the root do not carry one, so it is built
/// on the way down.
fn walk(
    path: &FilePath,
    entry: &DiskEntry,
    kind: SizeKind,
    rules: &Vec<Rule>,
    around: &Surroundings,
    out: &mut Vec<Candidate>,
)
    requires
        rules@ == rule_table(),
    ensures
        finds(final(out)@) == finds(old(out)@) + reclaimable(entry@, path@, kind, around@),
    decreases entry,
{
    let ghost before = finds(out@);
    if !entry.is_dir() {
        assert(finds(out@) =~= before + reclaimable(entry@, path@, kind, around@));
        return;
    }
    if let Some(rule) = find_rule(rules, path, around) {
        if entry.size(kind) > 0 {
            out.push(
                Candidate {
                    path: path.duplicate(),
                    size: entry.size(kind),
                    rule,
                    last_used: entry.modified,
                },
            );
        }
        assert(finds(out@) =~= before + reclaimable(entry@, path@, kind, around@));
        return;
    }
    let mut at: usize = 0;
    assert(before =~= before + reclaimable_below(entry@, 0, path@, kind, around@));
    while at < entry.children.len()
        invariant
            at <= entry.children.len(),
            rules@ == rule_table(),
            entry@.children.len() == entry.children.len(),
            finds(out@) == before + reclaimable_below(entry@, at as nat, path@, kind, around@),
        decreases entry.children.len() - at,
    {
        let child = &entry.children[at];
        assert(entry@.children[at as int] == child@);
        walk(&path.join_name(&child.name_os()), child, kind, rules, around, out);
        at += 1;
        assert(finds(out@) =~= before + reclaimable_below(
            entry@,
            at as nat,
            path@,
            kind,
            around@,
        ));
    }
}

/// Candidates of one category, taken together.
#[derive(Debug)]
pub struct Group<'a> {
    pub rule: Rule,
    pub size: u64,
    pub last_used: u64,
    pub paths: Vec<&'a FilePath>,
}

/// A group as a value.
#[verifier::ext_equal]
pub struct Category {
    pub rule: Rule,
    pub size: u64,
    pub last_used: u64,
    pub paths: Seq<Seq<u8>>,
}

impl<'a> View for Group<'a> {
    type V = Category;

    open spec fn view(&self) -> Category {
        Category {
            rule: self.rule,
            size: self.size,
            last_used: self.last_used,
            paths: self.paths@.map_values(|path: &FilePath| path@),
        }
    }
}

pub open spec fn categories(list: Seq<Group>) -> Seq<Category> {
    list.map_values(|group: Group| group@)
}

impl<'a> Group<'a> {
    pub fn idle_for(&self, now: u64) -> (seconds: u64)
        ensures
            seconds == tree::less_by(now, self.last_used),
    {
        now.saturating_sub(self.last_used)
    }
}

/// Where the first group of that rule stands.
pub open spec fn group_of(groups: Seq<Category>, id: Seq<char>) -> Option<int>
    decreases groups.len(),
{
    if groups.len() == 0 {
        None
    } else {
        match group_of(groups.drop_last(), id) {
            Some(at) => Some(at),
            None => if groups.last().rule.id@ == id {
                Some(groups.len() - 1)
            } else {
                None
            },
        }
    }
}

/// A group with one more candidate in it.
pub open spec fn extended(group: Category, find: Find) -> Category {
    Category {
        rule: group.rule,
        size: tree::wrapped(group.size, find.size),
        last_used: tree::later(group.last_used, find.last_used),
        paths: group.paths.push(find.path),
    }
}

/// The groups with one more candidate taken in.
pub open spec fn with_find(groups: Seq<Category>, find: Find) -> Seq<Category> {
    match group_of(groups, find.rule.id@) {
        Some(at) => groups.update(at, extended(groups[at], find)),
        None => groups.push(
            Category {
                rule: find.rule,
                size: find.size,
                last_used: find.last_used,
                paths: seq![find.path],
            },
        ),
    }
}

/// Candidates by category, in the order the categories first came up.
pub open spec fn gathered(found: Seq<Find>) -> Seq<Category>
    decreases found.len(),
{
    if found.len() == 0 {
        Seq::empty()
    } else {
        with_find(gathered(found.drop_last()), found.last())
    }
}

/// Candidates by category, the largest category first.
pub open spec fn grouped(found: Seq<Find>) -> Seq<Category> {
    order::stable_sort(gathered(found), |a: Category, b: Category| a.size > b.size)
}

proof fn group_of_holds(groups: Seq<Category>, id: Seq<char>)
    ensures
        group_of(groups, id) matches Some(at) ==> 0 <= at < groups.len() && groups[at].rule.id@
            == id && forall|i: int| 0 <= i < at ==> (#[trigger] groups[i]).rule.id@ != id,
        group_of(groups, id) is None ==> forall|i: int|
            0 <= i < groups.len() ==> (#[trigger] groups[i]).rule.id@ != id,
    decreases groups.len(),
{
    if groups.len() > 0 {
        let front = groups.drop_last();
        group_of_holds(front, id);
        assert forall|i: int| 0 <= i < front.len() implies #[trigger] groups[i] == front[i] by {}
        match group_of(front, id) {
            Some(at) => {
                assert(groups[at] == front[at]);
            },
            None => {
                assert forall|i: int| 0 <= i < front.len() implies (#[trigger] groups[i]).rule.id@
                    != id by {
                    assert(groups[i] == front[i]);
                }
            },
        }
    }
}

proof fn group_of_is(groups: Seq<Category>, id: Seq<char>, at: int)
    requires
        0 <= at < groups.len(),
        groups[at].rule.id@ == id,
        forall|i: int| 0 <= i < at ==> (#[trigger] groups[i]).rule.id@ != id,
    ensures
        group_of(groups, id) == Some(at),
{
    group_of_holds(groups, id);
    match group_of(groups, id) {
        Some(found) => {
            if found < at {
                assert(groups[found].rule.id@ != id);
            }
            if at < found {
                assert(groups[at].rule.id@ != id);
            }
        },
        None => {
            assert(groups[at].rule.id@ != id);
        },
    }
}

/// Group candidates by rule, so that a report says "Rust target directories 5 GB" once rather
/// than listing forty projects.
pub fn group_by_rule<'a>(candidates: &'a Vec<Candidate>) -> (out: Vec<Group<'a>>)
    ensures
        categories(out@) == grouped(finds(candidates@)),
{
    let mut groups: Vec<Group<'a>> = Vec::new();
    let mut at: usize = 0;
    let ghost all = finds(candidates@);
    assert(all.take(0) =~= Seq::empty());
    assert(categories(groups@) =~= Seq::empty());
    while at < candidates.len()
        invariant
            at <= candidates.len(),
            all == finds(candidates@),
            categories(groups@) == gathered(all.take(at as int)),
        decreases candidates.len() - at,
    {
        let candidate = &candidates[at];
        let ghost before = categories(groups@);
        let ghost find = all[at as int];
        assert(find == candidate@);
        assert(all.take(at + 1).drop_last() =~= all.take(at as int));
        assert(all.take(at + 1).last() == find);
        let mut index: usize = 0;
        while index < groups.len() && !strings::same(groups[index].rule.id, candidate.rule.id)
            invariant
                index <= groups.len(),
                before == categories(groups@),
                find == candidate@,
                forall|i: int|
                    0 <= i < index ==> (#[trigger] before[i]).rule.id@ != find.rule.id@,
            decreases groups.len() - index,
        {
            index += 1;
        }
        if index < groups.len() {
            proof {
                assert(before[index as int] == groups@[index as int]@);
                group_of_is(before, find.rule.id@, index as int);
            }
            let ghost old_group = groups@[index as int];
            groups[index].size = groups[index].size.wrapping_add(candidate.size);
            if groups[index].last_used < candidate.last_used {
                groups[index].last_used = candidate.last_used;
            }
            groups[index].paths.push(&candidate.path);
            proof {
                let grown = groups@[index as int]@;
                assert(grown.paths =~= old_group@.paths.push(find.path));
                assert(grown =~= extended(old_group@, find));
                assert(categories(groups@) =~= before.update(index as int, grown));
            }
        } else {
            proof {
                group_of_holds(before, find.rule.id@);
            }
            let mut paths: Vec<&'a FilePath> = Vec::new();
            paths.push(&candidate.path);
            let group = Group {
                rule: candidate.rule,
                size: candidate.size,
                last_used: candidate.last_used,
                paths,
            };
            assert(group@.paths =~= seq![find.path]);
            groups.push(group);
            assert(categories(groups@) =~= before.push(group@));
        }
        at += 1;
    }
    assert(all.take(at as int) =~= all);
    let ghost key = |group: Group<'a>| group@;
    let ghost less = |a: Category, b: Category| a.size > b.size;
    proof {
        assert(categories(groups@) == groups@.map_values(key));
        order::order_by_key(key, less);
        order::sort_maps(groups@, key, less);
    }
    let bigger = |a: &Group<'a>, b: &Group<'a>| -> (yes: bool)
        ensures
            yes == (a.size > b.size),
        { a.size > b.size };
    order::sort_stably(groups, &bigger, Ghost(|a: Group<'a>, b: Group<'a>| less(key(a), key(b))))
}

/// The sum of some sizes.
pub open spec fn total_found(found: Seq<Find>) -> int
    decreases found.len(),
{
    if found.len() == 0 {
        0
    } else {
        total_found(found.drop_last()) + found.last().size
    }
}

/// The sum of some categories' sizes.
pub open spec fn total_grouped(groups: Seq<Category>) -> int
    decreases groups.len(),
{
    if groups.len() == 0 {
        0
    } else {
        total_grouped(groups.drop_last()) + groups.last().size
    }
}

/// How many paths some categories hold.
pub open spec fn paths_grouped(groups: Seq<Category>) -> int
    decreases groups.len(),
{
    if groups.len() == 0 {
        0
    } else {
        paths_grouped(groups.drop_last()) + groups.last().paths.len()
    }
}

proof fn totals_update(groups: Seq<Category>, at: int, group: Category)
    requires
        0 <= at < groups.len(),
    ensures
        total_grouped(groups.update(at, group)) == total_grouped(groups) - groups[at].size
            + group.size,
        paths_grouped(groups.update(at, group)) == paths_grouped(groups) - groups[at].paths.len()
            + group.paths.len(),
    decreases groups.len(),
{
    let changed = groups.update(at, group);
    if at == groups.len() - 1 {
        assert(changed.drop_last() =~= groups.drop_last());
    } else {
        assert(changed.drop_last() =~= groups.drop_last().update(at, group));
        totals_update(groups.drop_last(), at, group);
    }
}

proof fn totals_bound(groups: Seq<Category>, at: int)
    requires
        0 <= at < groups.len(),
    ensures
        groups[at].size <= total_grouped(groups),
        total_grouped(groups) >= 0,
    decreases groups.len(),
{
    if at < groups.len() - 1 {
        totals_bound(groups.drop_last(), at);
    } else if groups.len() > 1 {
        totals_bound(groups.drop_last(), 0);
    } else {
        assert(total_grouped(groups.drop_last()) == 0);
    }
}

proof fn gathering_keeps_totals(found: Seq<Find>)
    requires
        total_found(found) <= u64::MAX,
    ensures
        total_grouped(gathered(found)) == total_found(found),
        paths_grouped(gathered(found)) == found.len(),
        forall|i: int, j: int|
            0 <= i < j < gathered(found).len() ==> (#[trigger] gathered(found)[i]).rule.id@ != (
            #[trigger] gathered(found)[j]).rule.id@,
        total_found(found) >= 0,
    decreases found.len(),
{
    if found.len() > 0 {
        let front = found.drop_last();
        let find = found.last();
        assert(total_found(front) <= total_found(found));
        gathering_keeps_totals(front);
        let groups = gathered(front);
        group_of_holds(groups, find.rule.id@);
        match group_of(groups, find.rule.id@) {
            Some(at) => {
                totals_bound(groups, at);
                totals_update(groups, at, extended(groups[at], find));
            },
            None => {
                assert(gathered(found).drop_last() =~= groups);
            },
        }
    }
}

proof fn totals_are_of_the_multiset(groups: Seq<Category>, x: Category)
    ensures
        total_grouped(order::insert(groups, x, |a: Category, b: Category| a.size > b.size))
            == total_grouped(groups) + x.size,
        paths_grouped(order::insert(groups, x, |a: Category, b: Category| a.size > b.size))
            == paths_grouped(groups) + x.paths.len(),
    decreases groups.len(),
{
    let less = |a: Category, b: Category| a.size > b.size;
    let out = order::insert(groups, x, less);
    if groups.len() > 0 && less(x, groups.last()) {
        totals_are_of_the_multiset(groups.drop_last(), x);
        assert(out.drop_last() =~= order::insert(groups.drop_last(), x, less));
    } else {
        assert(out.drop_last() =~= groups);
    }
}

proof fn sorting_keeps_totals(groups: Seq<Category>)
    ensures
        total_grouped(order::stable_sort(groups, |a: Category, b: Category| a.size > b.size))
            == total_grouped(groups),
        paths_grouped(order::stable_sort(groups, |a: Category, b: Category| a.size > b.size))
            == paths_grouped(groups),
    decreases groups.len(),
{
    let less = |a: Category, b: Category| a.size > b.size;
    if groups.len() > 0 {
        sorting_keeps_totals(groups.drop_last());
        totals_are_of_the_multiset(
            order::stable_sort(groups.drop_last(), less),
            groups.last(),
        );
    }
}

/// Grouping loses nothing and counts nothing twice: the groups add up to what was found, every
/// path is in exactly one of them, no two are of one category, and the largest comes first.
pub proof fn grouping_preserves_totals(found: Seq<Find>)
    requires
        total_found(found) <= u64::MAX,
    ensures
        total_grouped(grouped(found)) == total_found(found),
        paths_grouped(grouped(found)) == found.len(),
        forall|i: int, j: int|
            0 <= i < j < grouped(found).len() ==> (#[trigger] grouped(found)[i]).rule.id@ != (
            #[trigger] grouped(found)[j]).rule.id@,
        forall|i: int, j: int|
            0 <= i < j < grouped(found).len() ==> (#[trigger] grouped(found)[i]).size >= (
            #[trigger] grouped(found)[j]).size,
{
    broadcast use vstd::seq_lib::group_to_multiset_ensures;

    gathering_keeps_totals(found);
    sorting_keeps_totals(gathered(found));
    let less = |a: Category, b: Category| a.size > b.size;
    let before = gathered(found);
    let after = grouped(found);
    order::sort_orders(before, less);
    order::sort_is_a_permutation(before, less);
    assert forall|i: int, j: int| 0 <= i < j < after.len() implies (#[trigger] after[i]).size >= (
    #[trigger] after[j]).size by {
        assert(!less(after[j], after[i]));
    }
    assert forall|i: int, j: int| 0 <= i < j < after.len() implies (#[trigger] after[i]).rule.id@
        != (#[trigger] after[j]).rule.id@ by {
        let (a, b) = (after[i], after[j]);
        order::sort_keeps_members(before, less);
        assert(after.contains(a) && after.contains(b));
        let p = choose|p: int| 0 <= p < before.len() && before[p] == a;
        let q = choose|q: int| 0 <= q < before.len() && before[q] == b;
        if p == q {
            let only = before.remove(p);
            assert(before.to_multiset().count(a) <= 1) by {
                gathered_once(before, p);
            }
            assert(after.to_multiset().count(a) >= 2) by {
                occurs_twice(after, i, j);
            }
        }
    }
}

proof fn gathered_once(groups: Seq<Category>, p: int)
    requires
        0 <= p < groups.len(),
        forall|i: int, j: int|
            0 <= i < j < groups.len() ==> (#[trigger] groups[i]).rule.id@ != (
            #[trigger] groups[j]).rule.id@,
    ensures
        groups.to_multiset().count(groups[p]) <= 1,
{
    broadcast use vstd::seq_lib::group_to_multiset_ensures;

    assert forall|i: int, j: int| 0 <= i < groups.len() && 0 <= j < groups.len() && i != j implies
        groups[i] != groups[j] by {
        if i < j {
            assert(groups[i].rule.id@ != groups[j].rule.id@);
        } else {
            assert(groups[j].rule.id@ != groups[i].rule.id@);
        }
    }
    assert(groups.no_duplicates());
    groups.lemma_multiset_has_no_duplicates();
}

proof fn occurs_twice(groups: Seq<Category>, i: int, j: int)
    requires
        0 <= i < j < groups.len(),
        groups[i] == groups[j],
    ensures
        groups.to_multiset().count(groups[i]) >= 2,
{
    broadcast use vstd::seq_lib::group_to_multiset_ensures;

    if groups.to_multiset().count(groups[i]) <= 1 {
        let rest = groups.remove(j);
        assert(rest[i] == groups[i]);
        assert(rest.to_multiset() =~= groups.to_multiset().remove(groups[j]));
        assert(rest.contains(groups[i]));
        assert(rest.to_multiset().count(groups[i]) > 0);
    }
}

/// Whether neither of two places lies inside the other.
pub open spec fn apart(a: Seq<u8>, b: Seq<u8>) -> bool {
    !path::within(a, b) && !path::within(b, a)
}

proof fn finds_stay_below(tree: Tree, at: Seq<u8>, kind: SizeKind, around: Around)
    requires
        tree::plainly_named(tree),
        tree::distinctly_named(tree),
    ensures
        forall|i: int|
            0 <= i < reclaimable(tree, at, kind, around).len() ==> path::within(
                (#[trigger] reclaimable(tree, at, kind, around)[i]).path,
                at,
            ),
        forall|i: int, j: int|
            0 <= i < j < reclaimable(tree, at, kind, around).len() ==> apart(
                (#[trigger] reclaimable(tree, at, kind, around)[i]).path,
                (#[trigger] reclaimable(tree, at, kind, around)[j]).path,
            ),
        forall|i: int|
            0 <= i < reclaimable(tree, at, kind, around).len() ==> (#[trigger] reclaimable(
                tree,
                at,
                kind,
                around,
            )[i]).size > 0,
    decreases tree, 1nat, 0nat,
{
    let own = path::components(at);
    assert(own =~= own.subrange(0, own.len() as int));
    if tree.entry_type == EntryType::Directory && rule_for(at, around) is None {
        finds_stay_apart(tree, tree.children.len(), at, kind, around);
    }
}

proof fn finds_stay_apart(tree: Tree, count: nat, at: Seq<u8>, kind: SizeKind, around: Around)
    requires
        tree::plainly_named(tree),
        tree::distinctly_named(tree),
        count <= tree.children.len(),
    ensures
        forall|i: int|
            0 <= i < reclaimable_below(tree, count, at, kind, around).len() ==> {
                let own = path::components(at);
                let all = path::components(
                    (#[trigger] reclaimable_below(tree, count, at, kind, around)[i]).path,
                );
                &&& path::within(reclaimable_below(tree, count, at, kind, around)[i].path, at)
                &&& all.len() > own.len()
                &&& exists|k: int|
                    0 <= k < count && (#[trigger] tree.children[k]).name == all[own.len() as int]
            },
        forall|i: int, j: int|
            0 <= i < j < reclaimable_below(tree, count, at, kind, around).len() ==> apart(
                (#[trigger] reclaimable_below(tree, count, at, kind, around)[i]).path,
                (#[trigger] reclaimable_below(tree, count, at, kind, around)[j]).path,
            ),
        forall|i: int|
            0 <= i < reclaimable_below(tree, count, at, kind, around).len() ==> (
            #[trigger] reclaimable_below(tree, count, at, kind, around)[i]).size > 0,
    decreases tree, 0nat, count,
{
    if count > 0 {
        let before = reclaimable_below(tree, (count - 1) as nat, at, kind, around);
        let child = tree.children[count - 1];
        let below = path::joined(at, tree::own_name(child.name));
        let found = reclaimable(child, below, kind, around);
        let whole = reclaimable_below(tree, count, at, kind, around);
        assert(whole == before + found);
        finds_stay_apart(tree, (count - 1) as nat, at, kind, around);
        finds_stay_below(child, below, kind, around);
        tree::plain_name_is_own(child.name);
        path::joined_name_is_last(at, child.name);
        let own = path::components(at);
        let step = path::components(below);
        assert(step == own.push(child.name));
        assert forall|i: int| 0 <= i < whole.len() implies {
            let all = path::components((#[trigger] whole[i]).path);
            &&& path::within(whole[i].path, at)
            &&& all.len() > own.len()
            &&& exists|k: int|
                0 <= k < count && (#[trigger] tree.children[k]).name == all[own.len() as int]
        } by {
            if i < before.len() {
                assert(whole[i] == before[i]);
            } else {
                let find = found[i - before.len()];
                assert(whole[i] == find);
                let all = path::components(find.path);
                assert(path::within(find.path, below));
                assert(step =~= all.subrange(0, step.len() as int));
                assert(own =~= all.subrange(0, own.len() as int)) by {
                    assert forall|n: int| 0 <= n < own.len() implies own[n] == all[n] by {
                        assert(step[n] == own[n]);
                    }
                }
                assert(all[own.len() as int] == step[own.len() as int]);
                assert(tree.children[count - 1].name == all[own.len() as int]);
            }
        }
        assert forall|i: int, j: int| 0 <= i < j < whole.len() implies apart(
            (#[trigger] whole[i]).path,
            (#[trigger] whole[j]).path,
        ) by {
            if j < before.len() {
                assert(whole[i] == before[i] && whole[j] == before[j]);
            } else if i >= before.len() {
                assert(whole[i] == found[i - before.len()] && whole[j] == found[j - before.len()]);
            } else {
                assert(whole[i] == before[i] && whole[j] == found[j - before.len()]);
                let (a, b) = (path::components(whole[i].path), path::components(whole[j].path));
                let k = choose|k: int|
                    0 <= k < count - 1 && (#[trigger] tree.children[k]).name == a[own.len() as int];
                assert(path::within(whole[j].path, below));
                assert(step =~= b.subrange(0, step.len() as int));
                assert(b[own.len() as int] == child.name);
                tree::plain_name_is_own(tree.children[k].name);
                assert(tree.children[k].name != tree.children[count - 1].name);
                if path::within(whole[i].path, whole[j].path) {
                    assert(b =~= a.subrange(0, b.len() as int));
                    assert(a[own.len() as int] == b[own.len() as int]);
                }
                if path::within(whole[j].path, whole[i].path) {
                    assert(a =~= b.subrange(0, a.len() as int));
                    assert(a[own.len() as int] == b[own.len() as int]);
                }
            }
        }
        assert forall|i: int| 0 <= i < whole.len() implies (#[trigger] whole[i]).size > 0 by {
            if i < before.len() {
                assert(whole[i] == before[i]);
            } else {
                assert(whole[i] == found[i - before.len()]);
            }
        }
    }
}

/// What is offered for cleaning never overlaps: no candidate lies inside another, none is empty,
/// and all lie in the tree, the largest first.
pub proof fn reclaimable_never_overlaps(tree: Tree, kind: SizeKind, around: Around)
    requires
        tree::plainly_named(tree),
        tree::distinctly_named(tree),
    ensures
        forall|i: int, j: int|
            0 <= i < j < all_reclaimable(tree, kind, around).len() ==> (#[trigger] all_reclaimable(
                tree,
                kind,
                around,
            )[i]).size >= (#[trigger] all_reclaimable(tree, kind, around)[j]).size,
        forall|i: int|
            0 <= i < all_reclaimable(tree, kind, around).len() ==> {
                let find = #[trigger] all_reclaimable(tree, kind, around)[i];
                find.size > 0 && path::within(find.path, tree.name)
            },
        forall|i: int, j: int|
            0 <= i < all_reclaimable(tree, kind, around).len() && 0 <= j < all_reclaimable(
                tree,
                kind,
                around,
            ).len() && all_reclaimable(tree, kind, around)[i] != all_reclaimable(
                tree,
                kind,
                around,
            )[j] ==> apart(
                (#[trigger] all_reclaimable(tree, kind, around)[i]).path,
                (#[trigger] all_reclaimable(tree, kind, around)[j]).path,
            ),
{
    let less = |a: Find, b: Find| a.size > b.size;
    let before = reclaimable(tree, tree.name, kind, around);
    let after = all_reclaimable(tree, kind, around);
    finds_stay_below(tree, tree.name, kind, around);
    order::sort_orders(before, less);
    order::sort_is_a_permutation(before, less);
    order::sort_keeps_members(before, less);
    assert forall|i: int, j: int| 0 <= i < j < after.len() implies (#[trigger] after[i]).size >= (
    #[trigger] after[j]).size by {
        assert(!less(after[j], after[i]));
    }
    assert forall|i: int| 0 <= i < after.len() implies ({
        let find = #[trigger] after[i];
        find.size > 0 && path::within(find.path, tree.name)
    }) by {
        assert(after.contains(after[i]));
        let p = choose|p: int| 0 <= p < before.len() && before[p] == after[i];
        assert(before[p].size > 0);
    }
    assert forall|i: int, j: int|
        0 <= i < after.len() && 0 <= j < after.len() && after[i] != after[j] implies apart(
        (#[trigger] after[i]).path,
        (#[trigger] after[j]).path,
    ) by {
        assert(after.contains(after[i]) && after.contains(after[j]));
        let p = choose|p: int| 0 <= p < before.len() && before[p] == after[i];
        let q = choose|q: int| 0 <= q < before.len() && before[q] == after[j];
        if p < q {
            assert(apart(before[p].path, before[q].path));
        } else {
            assert(apart(before[q].path, before[p].path));
        }
    }
}

/// The files whose presence decides what some rules make of a path.
pub open spec fn proofs_among(rules: Seq<Rule>, path: Seq<u8>) -> Seq<Seq<u8>>
    decreases rules.len(),
{
    if rules.len() == 0 {
        Seq::empty()
    } else {
        let before = proofs_among(rules.drop_last(), path);
        match rules.last().matcher {
            Matcher::Named { name, sibling: Some(sibling) } => if path::file_name(path) == Some(
                encode_utf8(name@),
            ) && path::parent(path) is Some {
                before.push(path::joined(path::parent(path)->0, encode_utf8(sibling@)))
            } else {
                before
            },
            _ => before,
        }
    }
}

/// The files whose presence decides how `path` is classified. A caller looks which of them are
/// there, and classifies with those.
pub fn proofs_for(path: &FilePath) -> (out: Vec<FilePath>)
    ensures
        out@.map_values(|file: FilePath| file@) == proofs_among(rule_table(), path@),
{
    let rules = rules();
    let mut out: Vec<FilePath> = Vec::new();
    let mut at: usize = 0;
    let ghost value = |file: FilePath| file@;
    assert(out@.map_values(value) =~= proofs_among(rules@.take(0), path@));
    while at < rules.len()
        invariant
            at <= rules.len(),
            value == (|file: FilePath| file@),
            out@.map_values(value) == proofs_among(rules@.take(at as int), path@),
        decreases rules.len() - at,
    {
        let ghost before = out@;
        assert(rules@.take(at + 1).drop_last() =~= rules@.take(at as int));
        if let Matcher::Named { name, sibling: Some(sibling) } = rules[at].matcher {
            if let Some(actual) = path.file_name() {
                if strings::same_bytes(&actual, name.as_bytes()) {
                    if let Some(parent) = path.parent() {
                        let file = parent.join(&FilePath::new(sibling));
                        out.push(file);
                        assert(out@.map_values(value) =~= before.map_values(value).push(file@));
                    }
                }
            }
        }
        at += 1;
    }
    assert(rules@.take(at as int) =~= rules@);
    out
}

/// Looking for the files that [`proofs_for`] names is enough: what else is known to be there makes
/// no difference to what a path is taken for.
pub proof fn proofs_are_enough(path: Seq<u8>, one: Around, other: Around)
    requires
        one.home == other.home,
        forall|i: int|
            0 <= i < proofs_among(rule_table(), path).len() ==> is_present(
                #[trigger] proofs_among(rule_table(), path)[i],
                one.present,
            ) == is_present(proofs_among(rule_table(), path)[i], other.present),
    ensures
        rule_for(path, one) == rule_for(path, other),
{
    let all = rule_table();
    assert forall|k: int| 0 <= k < all.len() implies claims(#[trigger] all[k], path, one) == claims(
        all[k],
        path,
        other,
    ) by {
        proofs_hold_sibling(all, path, k);
    }
    same_claims(all, path, one, other);
}

proof fn proofs_hold_sibling(rules: Seq<Rule>, path: Seq<u8>, k: int)
    requires
        0 <= k < rules.len(),
    ensures
        rules[k].matcher matches Matcher::Named { name, sibling: Some(sibling) } ==> path::file_name(
            path,
        ) == Some(encode_utf8(name@)) && path::parent(path) is Some ==> exists|i: int|
            0 <= i < proofs_among(rules, path).len() && #[trigger] proofs_among(rules, path)[i]
                == path::joined(path::parent(path)->0, encode_utf8(sibling@)),
    decreases rules.len(),
{
    let front = rules.drop_last();
    let before = proofs_among(front, path);
    let all = proofs_among(rules, path);
    assert(forall|i: int| 0 <= i < before.len() ==> all[i] == before[i]);
    if k < rules.len() - 1 {
        proofs_hold_sibling(front, path, k);
        if let Matcher::Named { name, sibling: Some(sibling) } = rules[k].matcher {
            if path::file_name(path) == Some(encode_utf8(name@)) && path::parent(path) is Some {
                let wanted = path::joined(path::parent(path)->0, encode_utf8(sibling@));
                let i = choose|i: int| 0 <= i < before.len() && #[trigger] before[i] == wanted;
                assert(all[i] == wanted);
            }
        }
    } else {
        if let Matcher::Named { name, sibling: Some(sibling) } = rules[k].matcher {
            if path::file_name(path) == Some(encode_utf8(name@)) && path::parent(path) is Some {
                assert(all[all.len() - 1] == path::joined(
                    path::parent(path)->0,
                    encode_utf8(sibling@),
                ));
            }
        }
    }
}

proof fn same_claims(rules: Seq<Rule>, path: Seq<u8>, one: Around, other: Around)
    requires
        forall|k: int|
            0 <= k < rules.len() ==> claims(#[trigger] rules[k], path, one) == claims(
                rules[k],
                path,
                other,
            ),
    ensures
        first_claim(rules, path, one) == first_claim(rules, path, other),
    decreases rules.len(),
{
    if rules.len() > 0 {
        assert(claims(rules[0], path, one) == claims(rules[0], path, other));
        let rest = rules.skip(1);
        assert forall|k: int| 0 <= k < rest.len() implies claims(#[trigger] rest[k], path, one)
            == claims(rest[k], path, other) by {
            assert(rest[k] == rules[k + 1]);
        }
        same_claims(rest, path, one, other);
    }
}

} // verus!
