use disko::model::{display_path_from, growth_rows, largest_items, rows, Metric, Row, RowOptions, Sort};
use disko::path::FilePath;
use disko::size::SizeKind;
use disko::tree::{DiskEntry, EntryType};

fn entry(name: &str, size: u64, items: u64) -> DiskEntry {
    let mut entry = DiskEntry::new(&format!("/root/{name}"), EntryType::Directory);
    entry.allocated_size = size;
    entry.apparent_size = size;
    entry.items = items;
    entry
}

fn parent(children: Vec<DiskEntry>) -> DiskEntry {
    let mut parent = DiskEntry::new("/root", EntryType::Directory);
    for child in &children {
        parent.allocated_size += child.size(SizeKind::Allocated);
        parent.apparent_size += child.apparent_size;
    }
    parent.children = children;
    parent
}

fn sample() -> DiskEntry {
    parent(vec![
        entry("alpha", 100, 5),
        entry("beta", 300, 1),
        entry("gamma", 600, 20),
    ])
}

fn root() -> FilePath {
    FilePath::new("/root")
}

#[test]
fn rows_are_largest_first_with_shares_of_the_parent() {
    let tree = sample();
    let rows = rows(&root(), &tree, &RowOptions::default());

    assert_eq!(
        rows.iter().map(|r| r.name.as_str()).collect::<Vec<_>>(),
        ["gamma", "beta", "alpha"]
    );
    let fraction = rows[0].fraction.mantissa as f64 * 2f64.powi(rows[0].fraction.exponent);
    assert!((fraction - 0.6).abs() < 1e-9);
    assert_eq!(
        rows[0].path.as_ref().map(|path| path.display()),
        Some("/root/gamma".to_string())
    );
}

#[test]
fn the_tail_folds_into_one_other_row() {
    let tree = sample();
    let mut options = RowOptions::default();
    options.top = Some(1);
    let rows = rows(&root(), &tree, &options);

    assert_eq!(rows.len(), 2);
    assert_eq!(rows[0].name, "gamma");
    assert!(rows[1].is_other());
    assert_eq!(rows[1].size, 400);
    assert_eq!(rows[1].items, 6);
    assert!(rows[1].name.contains("2 entries"));
}

#[test]
fn colours_stay_put_when_the_sort_changes() {
    let tree = sample();
    let by_size = rows(&root(), &tree, &RowOptions::default());
    let mut options = RowOptions::default();
    options.sort = Sort::Name;
    let by_name = rows(&root(), &tree, &options);

    let colour_of =
        |rows: &[Row], name: &str| rows.iter().find(|r| r.name == name).unwrap().color_index;
    assert_eq!(colour_of(&by_size, "gamma"), colour_of(&by_name, "gamma"));
    assert_eq!(colour_of(&by_name, "gamma"), 0);
    assert_eq!(
        by_name.iter().map(|r| r.name.as_str()).collect::<Vec<_>>(),
        ["alpha", "beta", "gamma"]
    );
}

#[test]
fn filtering_shows_matches_and_drops_the_other_row() {
    let tree = sample();
    let mut options = RowOptions::default();
    options.top = Some(1);
    options.filter = Some("a".to_string());
    let rows = rows(&root(), &tree, &options);

    // alpha, beta and gamma all contain "a", and none are folded away.
    assert_eq!(rows.len(), 3);
    assert!(rows.iter().all(|r| !r.is_other()));
}

#[test]
fn filtering_is_case_insensitive() {
    let tree = sample();
    let mut options = RowOptions::default();
    options.filter = Some("GAM".to_string());
    let rows = rows(&root(), &tree, &options);
    assert_eq!(rows.len(), 1);
    assert_eq!(rows[0].name, "gamma");
}

#[test]
fn sorting_by_items_still_pins_other_last() {
    let tree = sample();
    let mut options = RowOptions::default();
    options.top = Some(1);
    options.sort = Sort::Items;
    let rows = rows(&root(), &tree, &options);
    assert_eq!(rows[0].name, "gamma");
    assert!(rows.last().unwrap().is_other());
}

#[test]
fn an_empty_directory_produces_no_rows() {
    let tree = parent(vec![]);
    assert!(rows(&root(), &tree, &RowOptions::default()).is_empty());
}

#[test]
fn paths_under_home_are_collapsed() {
    let home = Some(FilePath::new("/home/tester"));
    assert_eq!(
        display_path_from(&FilePath::new("/home/tester/code"), &home),
        "~/code"
    );
    assert_eq!(
        display_path_from(&FilePath::new("/home/tester"), &home),
        "~"
    );
    assert_eq!(
        display_path_from(&FilePath::new("/var/log"), &home),
        "/var/log"
    );
    // With no home to compare against, a path is just a path.
    assert_eq!(
        display_path_from(&FilePath::new("/var/log"), &None),
        "/var/log"
    );
}

#[test]
fn sorts_come_round_in_a_circle() {
    assert_eq!(Sort::Size.next(), Sort::Name);
    assert_eq!(Sort::Name.next(), Sort::Items);
    assert_eq!(Sort::Items.next(), Sort::Size);
    assert_eq!(Sort::default(), Sort::Size);
}

#[test]
fn rows_that_moved_are_ranked_by_how_far() {
    let before = sample();
    let after = parent(vec![
        entry("alpha", 900, 5),
        entry("beta", 300, 1),
        entry("gamma", 100, 20),
    ]);
    let diff = disko::diff::diff(&before, &after, SizeKind::Allocated, 0, 10, 0);
    let rows = growth_rows(&diff.tree, &RowOptions::default());
    let moved: Vec<(&str, Option<i64>)> = rows
        .iter()
        .map(|row| (row.name.as_str(), row.delta))
        .collect();
    assert_eq!(moved, [("alpha", Some(800)), ("gamma", Some(-500))]);
    assert_eq!(rows[1].magnitude(Metric::Growth), 500);
    assert_eq!(rows[1].magnitude(Metric::Size), 100);
}

#[test]
fn the_largest_items_are_two_levels_down() {
    let mut alpha = entry("alpha", 100, 2);
    alpha.children = vec![entry("alpha/inner", 90, 1), entry("alpha/empty", 0, 1)];
    let tree = parent(vec![alpha, entry("beta", 50, 1)]);
    let items = largest_items(&root(), &tree, 5, SizeKind::Allocated);
    let names: Vec<String> = items.iter().map(|(path, _)| path.display()).collect();
    assert_eq!(names, ["/root/alpha/inner"]);
}

#[test]
fn rows_add_up_to_what_is_there() {
    let tree = sample();
    for top in 0..5 {
        for sort in [Sort::Size, Sort::Name, Sort::Items] {
            let mut options = RowOptions::default();
            options.top = Some(top);
            options.sort = sort;
            let rows = rows(&root(), &tree, &options);
            assert_eq!(rows.iter().map(|row| row.size).sum::<u64>(), 1000);
            assert_eq!(rows.iter().map(|row| row.items).sum::<u64>(), 26);
        }
    }
}
