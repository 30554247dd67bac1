use disko::categories::Surroundings;
use disko::diff::{diff, ChangeKind, Diff};
use disko::path::FilePath;
use disko::size::SizeKind;
use disko::tree::{DiskEntry, EntryType};

const GB: u64 = 1_000_000_000;

fn dir(path: &str, size: u64, children: Vec<DiskEntry>) -> DiskEntry {
    let mut entry = DiskEntry::new(path, EntryType::Directory);
    entry.allocated_size = size;
    entry.apparent_size = size;
    entry.children = children;
    entry
}

/// A machine without a home directory or any proof of a project.
fn nowhere() -> Surroundings {
    Surroundings {
        home: None,
        present: Vec::new(),
    }
}

fn compare_trees(before: &DiskEntry, after: &DiskEntry) -> Diff {
    diff(before, after, SizeKind::Allocated, 1000, 2000, 0)
}

#[test]
fn totals_and_elapsed_time_come_through() {
    let before = dir("/home", 100 * GB, vec![]);
    let after = dir("/home", 182 * GB, vec![]);

    let diff = compare_trees(&before, &after);

    assert_eq!(diff.total_delta(), 82 * GB as i64);
    assert_eq!(diff.before_total, 100 * GB);
    assert_eq!(diff.after_total, 182 * GB);
    assert_eq!(diff.elapsed(), 1000);
}

/// The headline case: growth spread over four directories should name all
/// four, not their common parent.
#[test]
fn growth_is_attributed_to_each_directory_that_owns_it() {
    let before = dir(
        "/home",
        100 * GB,
        vec![dir("/home/Library", 10 * GB, vec![])],
    );
    let after = dir(
        "/home",
        182 * GB,
        vec![
            dir("/home/Library", 56 * GB, vec![]),
            dir("/home/.gradle", 18 * GB, vec![]),
            dir("/home/Downloads", 11 * GB, vec![]),
            dir("/home/.docker", 7 * GB, vec![]),
        ],
    );

    let diff = compare_trees(&before, &after);
    let growth = diff.growth(10, &nowhere());

    let named: Vec<String> = growth
        .iter()
        .map(|change| change.path.display())
        .collect();
    assert_eq!(
        named,
        [
            "/home/Library",
            "/home/.gradle",
            "/home/Downloads",
            "/home/.docker"
        ]
    );
    assert_eq!(growth[0].delta, 46 * GB as i64);
}

/// When growth concentrates in one deep directory, follow it all the way
/// down rather than stopping at the top.
#[test]
fn a_single_dominant_branch_is_followed_to_its_source() {
    let before = dir("/home", 10 * GB, vec![]);
    let after = dir(
        "/home",
        56 * GB,
        vec![dir(
            "/home/Library",
            46 * GB,
            vec![dir(
                "/home/Library/Developer",
                46 * GB,
                vec![dir("/home/Library/Developer/DerivedData", 46 * GB, vec![])],
            )],
        )],
    );

    let growth = compare_trees(&before, &after);
    let growth = growth.growth(5, &nowhere());

    assert_eq!(growth.len(), 1);
    assert_eq!(
        growth[0].path.display(),
        "/home/Library/Developer/DerivedData"
    );
}

/// ...but stop before fragmenting into hundreds of equally small children.
#[test]
fn diffuse_growth_stops_at_the_directory_that_contains_it() {
    let projects: Vec<DiskEntry> = (0..40)
        .map(|index| dir(&format!("/home/cache/p{index}"), GB, vec![]))
        .collect();
    let before = dir("/home", 10 * GB, vec![]);
    let after = dir(
        "/home",
        50 * GB,
        vec![dir("/home/cache", 40 * GB, projects)],
    );

    let growth = compare_trees(&before, &after);
    let growth = growth.growth(50, &nowhere());

    assert_eq!(growth.len(), 1, "expected one culprit, got {growth:#?}");
    assert_eq!(growth[0].path.display(),
        "/home/cache");
}

/// A directory disko can name — "Gradle caches" — is a better answer than
/// whichever blob inside it happens to be biggest.
#[test]
fn attribution_stops_at_something_worth_naming() {
    let before = dir("/home", 10 * GB, vec![]);
    let after = dir(
        "/home",
        40 * GB,
        vec![dir(
            "/home/cache",
            30 * GB,
            vec![dir("/home/cache/blob", 30 * GB, vec![])],
        )],
    );
    let computed = compare_trees(&before, &after);

    let named = computed.growth_stopping_at(5, &|path: &FilePath| path.file_name() == Some(b"cache".to_vec()));
    assert_eq!(named.len(), 1);
    assert_eq!(named[0].path.display(),
        "/home/cache");

    // Without a stop rule the trail runs all the way to the blob.
    let exact = computed.growth_stopping_at(5, &|_: &FilePath| false);
    assert_eq!(exact[0].path.display(),
        "/home/cache/blob");
}

#[test]
fn shrinkage_is_reported_separately_from_growth() {
    let before = dir(
        "/home",
        60 * GB,
        vec![
            dir("/home/keep", 10 * GB, vec![]),
            dir("/home/gone", 50 * GB, vec![]),
        ],
    );
    let after = dir("/home", 10 * GB, vec![dir("/home/keep", 10 * GB, vec![])]);

    let diff = compare_trees(&before, &after);

    assert!(diff.growth(10, &nowhere()).is_empty());
    let freed = diff.shrinkage(10, &nowhere());
    assert_eq!(freed.len(), 1);
    assert_eq!(freed[0].path.display(),
        "/home/gone");
    assert_eq!(freed[0].kind, ChangeKind::Removed);
    assert_eq!(freed[0].delta, -(50 * GB as i64));
}

/// A week that nets to zero because one cache exploded while another was
/// cleared is not a quiet week.
#[test]
fn offsetting_movements_are_both_reported() {
    let before = dir(
        "/home",
        50 * GB,
        vec![
            dir("/home/old", 40 * GB, vec![]),
            dir("/home/new", 10 * GB, vec![]),
        ],
    );
    let after = dir(
        "/home",
        50 * GB,
        vec![
            dir("/home/old", 0, vec![]),
            dir("/home/new", 50 * GB, vec![]),
        ],
    );

    let diff = compare_trees(&before, &after);

    assert_eq!(diff.total_delta(), 0);
    assert_eq!(diff.growth(5, &nowhere()).len(), 1);
    assert_eq!(diff.shrinkage(5, &nowhere()).len(), 1);
}

#[test]
fn a_quiet_period_reports_nothing() {
    let before = dir("/home", 100 * GB, vec![dir("/home/stuff", 50 * GB, vec![])]);
    let mut after = before.duplicate();
    // A few kilobytes of log churn is not news.
    after.allocated_size += 4096;

    let diff = compare_trees(&before, &after);

    assert!(diff.growth(10, &nowhere()).is_empty());
    assert!(diff.shrinkage(10, &nowhere()).is_empty());
}

#[test]
fn new_directories_are_marked_added() {
    let before = dir("/home", 10 * GB, vec![]);
    let after = dir("/home", 30 * GB, vec![dir("/home/fresh", 20 * GB, vec![])]);

    let growth = compare_trees(&before, &after);
    let growth = growth.growth(5, &nowhere());

    assert_eq!(growth[0].kind, ChangeKind::Added);
    assert_eq!(growth[0].before, 0);
    assert!(
        !growth[0].before_is_bound,
        "an unpruned scan knows it was absent"
    );
}

/// A pruned snapshot cannot tell "new" from "was below the noise floor",
/// and says so instead of guessing.
#[test]
fn growth_out_of_a_pruned_snapshot_is_flagged_as_a_bound() {
    let before = dir("/home", 10 * GB, vec![]);
    let after = dir("/home", 30 * GB, vec![dir("/home/fresh", 20 * GB, vec![])]);

    let diff = diff(&before, &after, SizeKind::Allocated, 0, 1, 1_000_000);
    let growth = diff.growth(5, &nowhere());

    assert!(growth[0].before_is_bound);
}

#[test]
fn a_change_can_be_looked_up_by_path() {
    let before = dir("/home", 10 * GB, vec![dir("/home/a", 5 * GB, vec![])]);
    let after = dir("/home", 20 * GB, vec![dir("/home/a", 15 * GB, vec![])]);

    let diff = compare_trees(&before, &after);

    assert_eq!(
        diff.change_for(&FilePath::new("/home/a")).unwrap().delta,
        10 * GB as i64
    );
    assert!(diff.change_for(&FilePath::new("/home/nope")).is_none());
}

#[test]
fn shares_are_relative_to_the_whole_change() {
    let before = dir("/home", 0, vec![]);
    let after = dir("/home", 100, vec![dir("/home/half", 50, vec![])]);
    let diff = compare_trees(&before, &after);

    let change = diff.change_for(&FilePath::new("/home/half")).unwrap();
    let half = change.share_of(100);
    assert_eq!((half.mantissa, half.exponent), (1 << 52, -53));
    assert_eq!(change.share_of(0).mantissa, 0);
}

#[test]
fn an_unchanged_tree_is_quiet() {
    let tree = dir("/home", 50 * GB, vec![dir("/home/a", 20 * GB, vec![])]);
    let diff = compare_trees(&tree, &tree.duplicate());
    assert_eq!(diff.total_delta(), 0);
    assert!(diff.growth(9, &nowhere()).is_empty());
    assert!(diff.shrinkage(9, &nowhere()).is_empty());
    assert_eq!(diff.tree.change.kind, ChangeKind::Unchanged);
}

#[test]
fn every_name_on_either_side_is_compared_once() {
    let before = dir(
        "/home",
        30,
        vec![dir("gone", 10, vec![]), dir("both", 20, vec![])],
    );
    let after = dir(
        "/home",
        45,
        vec![dir("both", 25, vec![]), dir("new", 20, vec![])],
    );
    let diff = compare_trees(&before, &after);
    let kinds: Vec<(String, ChangeKind, i64)> = diff
        .tree
        .children
        .iter()
        .map(|node| (node.change.path.display(), node.change.kind, node.change.delta))
        .collect();
    assert_eq!(
        kinds,
        [
            ("/home/both".to_string(), ChangeKind::Grown, 5),
            ("/home/gone".to_string(), ChangeKind::Removed, -10),
            ("/home/new".to_string(), ChangeKind::Added, 20),
        ]
    );
    assert!(diff.tree.children[0].change.is_growth());
    assert!(!diff.tree.children[1].change.is_growth());
}

#[test]
fn nothing_is_blamed_inside_something_blamed() {
    let before = dir("/home", 10 * GB, vec![]);
    let after = dir(
        "/home",
        70 * GB,
        vec![
            dir(
                "a",
                40 * GB,
                vec![dir("x", 30 * GB, vec![dir("deep", 30 * GB, vec![])]), dir("y", 10 * GB, vec![])],
            ),
            dir("b", 20 * GB, vec![dir("crumbs", GB / 1_000, vec![])]),
        ],
    );
    let diff = compare_trees(&before, &after);
    let blamed: Vec<String> = diff
        .growth(10, &nowhere())
        .iter()
        .map(|change| change.path.display())
        .collect();
    assert_eq!(blamed, ["/home/a/x/deep", "/home/b", "/home/a/y"]);
    for one in &blamed {
        for other in &blamed {
            assert!(one == other || !FilePath::new(one).starts_with(&FilePath::new(other)));
        }
    }
}
