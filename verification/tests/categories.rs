use disko::categories::{
    self, classify, find_reclaimable_from, group_by_rule, proofs_for, Candidate, Rule, Safety,
    Surroundings,
};
use disko::path::FilePath;
use disko::size::SizeKind;
use disko::tree::{DiskEntry, EntryType};

fn around(home: &str, present: &[&str]) -> Surroundings {
    Surroundings {
        home: Some(FilePath::new(home)),
        present: present.iter().map(|path| FilePath::new(path)).collect(),
    }
}

fn rule_for(path: &str, home: &str) -> Option<Rule> {
    let around = around(home, &[]);
    categories::rules()
        .into_iter()
        .find(|rule| categories::matches(rule, &FilePath::new(path), &around))
}

#[test]
fn known_developer_caches_are_recognised() {
    let home = "/home/cesar";
    assert_eq!(
        rule_for("/home/cesar/Library/Developer/Xcode/DerivedData", home)
            .unwrap()
            .id,
        "xcode-derived-data"
    );
    assert_eq!(
        rule_for("/home/cesar/.gradle/caches", home).unwrap().id,
        "gradle-caches"
    );
    assert_eq!(
        rule_for("/home/cesar/go/pkg/mod", home).unwrap().id,
        "go-module-cache"
    );
    assert_eq!(
        rule_for("/var/lib/docker", home).unwrap().id,
        "docker-var-lib"
    );
}

#[test]
fn unknown_directories_are_left_alone() {
    assert!(rule_for("/home/cesar/Documents", "/home/cesar").is_none());
    assert!(rule_for("/home/cesar/.gradle", "/home/cesar").is_none());
    // Another user's cache is not this user's cache.
    assert!(rule_for("/home/someone-else/.gradle/caches", "/home/cesar").is_none());
}

#[test]
fn every_rule_says_whether_it_is_safe_and_has_a_unique_id() {
    let rules = categories::rules();
    let mut ids: Vec<&str> = rules.iter().map(|rule| rule.id).collect();
    ids.sort_unstable();
    let count = ids.len();
    ids.dedup();
    assert_eq!(ids.len(), count, "duplicate rule id");

    for rule in &rules {
        assert!(!rule.label.is_empty(), "{} has no label", rule.id);
        // Anything called safe to regenerate must say what regenerates it.
        if rule.safety == Safety::Regenerable {
            assert!(
                rule.regenerate.is_some(),
                "{} claims to be regenerable but says nothing about how",
                rule.id
            );
        }
    }
}

/// A `target` directory only counts as build output when a Cargo.toml sits beside it, otherwise a
/// photographer's `target` folder gets swept up.
#[test]
fn project_output_needs_a_sibling_manifest_as_proof() {
    let around = around("/home/tester", &["/work/project/Cargo.toml"]);

    assert_eq!(
        classify(&FilePath::new("/work/project/target"), &around).map(|rule| rule.id),
        Some("rust-target")
    );
    assert!(classify(&FilePath::new("/work/archery/target"), &around).is_none());
}

/// The files to look for beside a path are those that any rule for its name asks for.
#[test]
fn the_proofs_of_a_target_directory_hold_its_manifest() {
    let proofs = proofs_for(&FilePath::new("/work/project/target"));
    assert!(proofs
        .iter()
        .any(|file| file.display() == "/work/project/Cargo.toml"));
    assert!(proofs_for(&FilePath::new("/work/project/pictures")).is_empty());
}

fn dir(path: &str, size: u64, modified: u64, children: Vec<DiskEntry>) -> DiskEntry {
    let mut entry = DiskEntry::new(path, EntryType::Directory);
    entry.allocated_size = size;
    entry.apparent_size = size;
    entry.modified = modified;
    entry.children = children;
    entry
}

#[test]
fn reclaimable_scan_finds_caches_and_stops_descending_into_them() {
    let tree = dir(
        "/home/tester",
        100,
        500,
        vec![
            dir(
                "/home/tester/.gradle",
                40,
                400,
                vec![dir("/home/tester/.gradle/caches", 40, 400, vec![])],
            ),
            dir("/home/tester/Documents", 60, 500, vec![]),
        ],
    );

    let found = find_reclaimable_from(&tree, SizeKind::Allocated, &around("/home/tester", &[]));

    assert_eq!(found.len(), 1);
    assert_eq!(found[0].path.display(), "/home/tester/.gradle/caches");
    assert_eq!(found[0].rule.id, "gradle-caches");
    assert_eq!(found[0].size, 40);
    assert_eq!(found[0].last_used, 400);
    assert_eq!(found[0].idle_for(1000), 600);
}

#[test]
fn empty_caches_are_not_offered() {
    let tree = dir(
        "/home/tester",
        0,
        0,
        vec![dir("/home/tester/.ccache", 0, 0, vec![])],
    );
    assert!(
        find_reclaimable_from(&tree, SizeKind::Allocated, &around("/home/tester", &[])).is_empty()
    );
}

#[test]
fn grouping_totals_the_same_category_across_projects() {
    let rust = || {
        categories::rules()
            .into_iter()
            .find(|rule| rule.id == "rust-target")
            .unwrap()
    };
    let candidates = vec![
        Candidate {
            path: FilePath::new("/a/target"),
            size: 300,
            rule: rust(),
            last_used: 100,
        },
        Candidate {
            path: FilePath::new("/b/target"),
            size: 200,
            rule: rust(),
            last_used: 900,
        },
    ];

    let groups = group_by_rule(&candidates);

    assert_eq!(groups.len(), 1);
    assert_eq!(groups[0].size, 500);
    assert_eq!(groups[0].paths.len(), 2);
    // The category is as recently used as its most recently used member.
    assert_eq!(groups[0].last_used, 900);
    assert_eq!(groups[0].idle_for(1000), 100);
}

#[test]
fn what_is_reclaimed_once_is_not_offered_again_inside() {
    // A cache below a cache is part of it.
    let tree = dir(
        "/home/tester",
        90,
        500,
        vec![dir(
            ".cargo",
            90,
            400,
            vec![dir("registry", 90, 400, vec![dir("cache", 80, 400, vec![])])],
        )],
    );
    let found = find_reclaimable_from(&tree, SizeKind::Allocated, &around("/home/tester", &[]));
    for (at, one) in found.iter().enumerate() {
        for (other_at, other) in found.iter().enumerate() {
            assert!(at == other_at || !one.path.starts_with(&other.path));
        }
    }
}
