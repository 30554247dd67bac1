use disko::categories::{self, group_by_rule, Candidate, Surroundings};
use disko::cli::{Cli, Mode};
use disko::clipboard::{base64, helpers, helpers_for, osc52, unreachable_text};
use disko::commands::{
    baseline, cannot_read, compare_with, confirms, forgot, narrow, no_diff_root, no_snapshot,
    nothing_deleted, open_removal, refusal, resolve_diff_root, watch_interval, watch_line, Opening,
    Sweep, Verdict,
};
use disko::diff::{diff, Diff};
use disko::file_manager::{
    command_for, folder_for, manager_name, not_found, nowhere_to_go, Platform,
};
use disko::history::{storage_floor, SnapshotId, Store};
use disko::path::FilePath;
use disko::report::{
    clean_plain, clean_report, diff_plain, diff_report, diff_report_since, history_report,
    history_report_at, signed, Palette,
};
use disko::size::{SizeKind, Unit};
use disko::tree::{DiskEntry, EntryType};

const GB: u64 = 1_000_000_000;

fn dir(path: &str, size: u64, children: Vec<DiskEntry>) -> DiskEntry {
    let mut entry = DiskEntry::new(path, EntryType::Directory);
    entry.allocated_size = size;
    entry.apparent_size = size;
    entry.children = children;
    entry
}

fn nowhere() -> Surroundings {
    Surroundings {
        home: None,
        present: Vec::new(),
    }
}

fn sample_diff() -> Diff {
    let before = dir(
        "/home",
        100 * GB,
        vec![dir("/home/Library", 10 * GB, vec![])],
    );
    let after = dir(
        "/home",
        182 * GB,
        vec![
            dir("/home/Library", 56 * GB, vec![]),
            dir("/home/.gradle", 18 * GB, vec![]),
            dir("/home/Downloads", 11 * GB, vec![]),
        ],
    );
    diff(
        &before,
        &after,
        SizeKind::Allocated,
        1_800_000_000,
        1_800_259_200,
        0,
    )
}

fn sample_report() -> String {
    diff_report(
        &sample_diff(),
        Unit::Decimal,
        10,
        1_800_259_200,
        Palette::plain(),
        &nowhere(),
    )
}

#[test]
fn the_diff_headline_says_how_much_and_since_when() {
    let text = sample_report();

    assert!(text.contains("+82 GB added since"), "{text}");
    assert!(text.contains("3 days"), "{text}");
    assert!(text.contains("+46 GB"), "{text}");
    assert!(text.contains("/home/Library"), "{text}");
    assert!(text.contains("100 GB → 182 GB"), "{text}");
}

#[test]
fn new_directories_are_marked_in_the_report() {
    let text = sample_report();
    // .gradle did not exist before.
    let gradle = text.lines().find(|line| line.contains(".gradle")).unwrap();
    assert!(gradle.contains("(new)"), "{gradle}");
    // Library did, so it merely grew.
    let library = text.lines().find(|line| line.contains("Library")).unwrap();
    assert!(!library.contains("(new)"), "{library}");
}

#[test]
fn a_quiet_period_says_so_rather_than_printing_an_empty_list() {
    let tree = dir("/home", 100 * GB, vec![]);
    let diff = diff(&tree, &tree, SizeKind::Allocated, 0, 100, 0);

    let text = diff_report(&diff, Unit::Decimal, 10, 100, Palette::plain(), &nowhere());
    assert!(text.contains("nothing moved"), "{text}");
}

#[test]
fn plain_diff_output_leads_with_signed_bytes() {
    let text = diff_plain(&sample_diff(), Unit::Decimal, 10, &nowhere());

    let first = text.lines().next().unwrap();
    let fields: Vec<&str> = first.split('\t').collect();
    assert_eq!(fields[0], "46000000000");
    assert_eq!(fields[1], "+46 GB");
    assert_eq!(fields[2], "grown");
    assert_eq!(fields[3], "/home/Library");
}

#[test]
fn freed_space_is_reported_as_a_negative() {
    let before = dir("/home", 60 * GB, vec![dir("/home/gone", 50 * GB, vec![])]);
    let after = dir("/home", 10 * GB, vec![]);
    let diff = diff(&before, &after, SizeKind::Allocated, 0, 86400, 0);

    let text = diff_report(
        &diff,
        Unit::Decimal,
        10,
        86400,
        Palette::plain(),
        &nowhere(),
    );

    assert!(text.contains("50 GB freed"), "{text}");
    assert!(text.contains("Freed"), "{text}");
    assert!(text.contains("-50 GB"), "{text}");
    assert!(text.contains("(gone)"), "{text}");
}

#[test]
fn the_moment_of_the_earlier_scan_goes_into_the_headline() {
    let text = diff_report_since(
        &sample_diff(),
        Unit::Decimal,
        10,
        "last Tuesday",
        Palette::plain(),
        &nowhere(),
    );
    assert!(text.contains("+82 GB added since last Tuesday"), "{text}");
}

#[test]
fn signed_sizes_always_carry_their_sign() {
    assert_eq!(signed(1_000_000_000, Unit::Decimal), "+1 GB");
    assert_eq!(signed(-1_000_000_000, Unit::Decimal), "-1 GB");
    assert_eq!(signed(0, Unit::Decimal), "+0 B");
}

#[test]
fn colour_is_off_when_nobody_is_looking() {
    let plain = Palette::plain();
    assert_eq!(plain.grew("+1 GB"), "+1 GB");
    assert!(!plain.bold("x").contains('\x1b'));

    assert!(!Palette::detect(false, false).dim("x").contains('\x1b'));
    assert!(!Palette::detect(true, true).warn("x").contains('\x1b'));
    assert!(Palette::detect(true, false).freed("x").contains('\x1b'));
}

#[test]
fn a_history_lists_its_snapshots() {
    let store = Store::at(FilePath::new("/store"));
    let earlier = store.record_at(&dir("/home", 100 * GB, vec![]), 1_800_000_000, 1);
    let later = store.record_at(&dir("/home", 182 * GB, vec![]), 1_800_259_200, 1);
    let snapshots = vec![earlier.snapshot, later.snapshot];
    let root = FilePath::new("/home");

    let text = history_report_at(
        &root,
        &snapshots,
        &vec!["one day".to_string(), "another".to_string()],
        Unit::Decimal,
        Palette::plain(),
        &None,
    );
    assert!(text.contains("one day"), "{text}");
    assert!(text.contains("100 GB"), "{text}");
    assert!(text.contains("+82 GB"), "{text}");

    let now = history_report(
        &root,
        &snapshots,
        Unit::Decimal,
        1_800_259_300,
        Palette::plain(),
        &None,
    );
    assert!(now.contains("182 GB"), "{now}");
}

fn caches(paths: &[&str], last_used: u64) -> Vec<Candidate> {
    paths
        .iter()
        .map(|path| Candidate {
            path: FilePath::new(path),
            size: 1000,
            rule: categories::rules()
                .into_iter()
                .find(|rule| rule.id == "gradle-caches")
                .unwrap(),
            last_used,
        })
        .collect()
}

#[test]
fn what_can_be_reclaimed_is_listed_by_category() {
    let found = caches(&["/a/.gradle/caches", "/b/.gradle/caches"], 100);
    let groups = group_by_rule(&found);
    let label = groups[0].rule.label;

    let text = clean_report(&groups, Unit::Decimal, 1_000_000, Palette::plain());
    assert!(text.contains(label), "{text}");
    assert!(text.contains("2 KB"), "{text}");
    let plain = clean_plain(&groups, Unit::Decimal);
    assert!(plain.starts_with("2000\t"), "{plain}");
    let fields: Vec<&str> = plain.lines().next().unwrap().split('\t').collect();
    let again = groups[0].rule.regenerate.unwrap_or("");
    assert_eq!(
        fields,
        ["2000", "2 KB", groups[0].rule.safety.label(), "100", again, "/a/.gradle/caches"]
    );
    assert_eq!(plain.lines().count(), 2);
}

#[test]
fn idle_categories_can_be_picked_out() {
    let found = caches(&["/a/.gradle/caches"], 100);
    assert_eq!(narrow(group_by_rule(&found), false, Some(50), 1000).len(), 1);
    assert_eq!(narrow(group_by_rule(&found), false, Some(5000), 1000).len(), 0);
    assert_eq!(narrow(group_by_rule(&found), false, None, 1000).len(), 1);
}

#[test]
fn deleting_without_a_terminal_or_yes_is_refused() {
    let found = caches(&["/nonexistent/.gradle/caches"], 0);
    let groups = group_by_rule(&found);

    // Without a terminal on stdin there is nobody to ask, which is exactly the situation this guard
    // exists for.
    let opening = open_removal(
        &groups,
        Unit::Decimal,
        false,
        false,
        false,
        Palette::plain(),
        &None,
    );
    assert!(matches!(opening, Opening::Refused));
    assert!(refusal().contains("--yes"), "{}", refusal());
}

#[test]
fn a_removal_opens_by_asking_unless_told_not_to() {
    let found = caches(&["/home/tester/.gradle/caches"], 0);
    let groups = group_by_rule(&found);
    let open = |yes, terminal| {
        open_removal(
            &groups,
            Unit::Decimal,
            false,
            yes,
            terminal,
            Palette::plain(),
            &None,
        )
    };
    assert!(matches!(open(true, false), Opening::Go));
    match open(false, true) {
        Opening::Ask(text) => assert!(text.contains("/home/tester/.gradle/caches"), "{text}"),
        other => panic!("expected a question, got {other:?}"),
    }
    let nothing = open_removal(
        &vec![],
        Unit::Decimal,
        true,
        true,
        true,
        Palette::plain(),
        &None,
    );
    assert!(matches!(nothing, Opening::Nothing));
    assert!(confirms(" delete\n"));
    assert!(!confirms("yes"));
    assert_eq!(nothing_deleted(Palette::plain()), " nothing was deleted\n");
}

#[test]
fn deletion_skips_paths_that_no_longer_classify() {
    // Not under any home directory, so no rule will claim it.
    let found = caches(&["/tmp/definitely-not-a-known-cache"], 0);
    let groups = group_by_rule(&found);

    let mut text = String::new();
    let mut sweep = Sweep::new(&groups);
    while sweep.current().is_some() {
        match sweep.verify(&nowhere(), Palette::plain()) {
            Verdict::Skip(words) => text.push_str(&words),
            Verdict::Remove => panic!("this must not be touched"),
        }
    }
    text.push_str(&sweep.closing(Unit::Decimal, Palette::plain()));

    assert!(text.contains("no longer a recognised cache"), "{text}");
    assert!(text.contains("Freed 0 B"), "{text}");
}

#[test]
fn a_sweep_counts_what_went_and_says_what_did_not() {
    let found = caches(
        &["/home/tester/.gradle/caches", "/home/tester/.gradle/caches"],
        0,
    );
    let groups = group_by_rule(&found);
    let around = Surroundings {
        home: Some(FilePath::new("/home/tester")),
        present: Vec::new(),
    };
    let mut sweep = Sweep::new(&groups);
    assert!(matches!(
        sweep.verify(&around, Palette::plain()),
        Verdict::Remove
    ));
    let gone = sweep.removed(&None, Palette::plain(), &around.home);
    assert!(gone.contains("~/.gradle/caches"), "{gone}");
    sweep.verify(&around, Palette::plain());
    let failed = sweep.removed(&Some("busy".to_string()), Palette::plain(), &around.home);
    assert!(failed.contains("busy"), "{failed}");
    assert!(sweep.current().is_none());
    assert!(sweep
        .closing(Unit::Decimal, Palette::plain())
        .contains("Freed 1 KB"));
}

fn ids(times: &[u64]) -> Vec<SnapshotId> {
    times
        .iter()
        .map(|taken_at| SnapshotId {
            taken_at: *taken_at,
            path: FilePath::new("/s"),
        })
        .collect()
}

#[test]
fn diffing_without_any_history_explains_what_to_do() {
    let missing = FilePath::new("/nonexistent-path-for-tests");
    let error = cannot_read(&missing);
    assert!(error.contains("cannot read"), "{error}");
    assert_eq!(error, "cannot read /nonexistent-path-for-tests");

    let never = no_snapshot(&missing, &None, &None);
    assert!(never.contains("/nonexistent-path-for-tests"), "{never}");
    let since = no_snapshot(&missing, &Some("7d".to_string()), &None);
    assert!(since.contains("7d"), "{since}");
    assert!(no_diff_root().contains("no previous scan"));
}

#[test]
fn the_baseline_is_the_last_scan_before_the_window() {
    let list = ids(&[100, 200, 300]);
    assert_eq!(baseline(&list, &None, 1000).unwrap(), Some(2));
    assert_eq!(
        baseline(&list, &Some("750s".to_string()), 1000).unwrap(),
        Some(1)
    );
    assert_eq!(
        baseline(&list, &Some("1d".to_string()), 1000).unwrap(),
        None
    );
    assert!(baseline(&list, &Some("soon".to_string()), 1000).is_err());
    assert_eq!(baseline(&ids(&[]), &None, 1000).unwrap(), None);
}

#[test]
fn a_diff_falls_back_on_the_last_root_and_then_on_home() {
    let path = |text: &str| Some(FilePath::new(text));
    let shown = |root: Option<FilePath>| root.map(|root| root.display());
    assert_eq!(
        shown(resolve_diff_root(path("/a"), path("/b"), path("/c"))),
        Some("/a".to_string())
    );
    assert_eq!(
        shown(resolve_diff_root(None, path("/b"), path("/c"))),
        Some("/b".to_string())
    );
    assert_eq!(
        shown(resolve_diff_root(None, None, path("/c"))),
        Some("/c".to_string())
    );
    assert_eq!(shown(resolve_diff_root(None, None, None)), None);
}

#[test]
fn a_snapshot_is_what_the_next_scan_is_compared_with() {
    let store = Store::at(FilePath::new("/store"));
    let before = store.record_at(&dir("/home", 100 * GB, vec![]), 50, 1);
    let after = dir("/home", 120 * GB, vec![]);
    let diff = compare_with(&Some(before.snapshot), &after, SizeKind::Allocated, 80).unwrap();
    assert_eq!(diff.total_delta(), 20 * GB as i64);
    assert_eq!(diff.elapsed(), 30);
    assert!(compare_with(&None, &after, SizeKind::Allocated, 80).is_none());
}

#[test]
fn scanning_a_tree_yields_something_recordable() {
    let mut entry = DiskEntry::new("/x", EntryType::Directory);
    entry.allocated_size = 10;
    // Just proving the shape the store wants is the shape a scan gives.
    assert_eq!(storage_floor(&entry), 1_000_000);
}

#[test]
fn watching_prints_the_change_since_it_began() {
    let place = FilePath::new("/home");
    let first = watch_line(100 * GB, None, Unit::Decimal, &place);
    assert!(first.contains("baseline"), "{first}");
    let next = watch_line(101 * GB, Some(100 * GB), Unit::Decimal, &place);
    assert!(next.contains("+1 GB"), "{next}");
    assert_eq!(watch_interval("0s").unwrap(), 1);
    assert_eq!(watch_interval("2m").unwrap(), 120);
    assert!(watch_interval("often").is_err());
    assert_eq!(forgot(&place, &None), " forgot the history for /home\n");
}

#[test]
fn a_bare_invocation_scans_nothing_and_shows_everything_by_default() {
    let cli = Cli::default();
    assert!(cli.path.is_none());
    assert_eq!(cli.top, 20);
    assert!(!cli.wants_text_output());
    assert_eq!(cli.size_kind(), SizeKind::Allocated);
    assert_eq!(cli.unit(), Unit::Decimal);
}

#[test]
fn flags_map_onto_scan_options() {
    let mut cli = Cli::default();
    cli.path = Some(FilePath::new("/"));
    cli.depth = Some(3);
    cli.one_file_system = true;
    cli.count_hardlinks = true;
    let options = cli.scan_options();
    assert_eq!(cli.path.map(|path| path.display()), Some("/".to_string()));
    assert_eq!(options.max_depth, Some(3));
    assert!(options.one_file_system);
    assert!(!options.dedup_hardlinks);
    assert!(options.skip_remote);
}

#[test]
fn detail_modes_imply_text_output() {
    let with = |set: fn(&mut Cli)| {
        let mut cli = Cli::default();
        set(&mut cli);
        cli
    };
    assert!(with(|cli| cli.filesystems = true).wants_text_output());
    assert!(with(|cli| cli.inodes = true).wants_text_output());
    assert!(with(|cli| cli.json = true).wants_text_output());
    // --details on its own opens the panel in the TUI.
    assert!(!with(|cli| cli.details = true).wants_text_output());
}

#[test]
fn apparent_and_binary_change_the_units() {
    let mut cli = Cli::default();
    cli.apparent = true;
    cli.binary = true;
    assert_eq!(cli.size_kind(), SizeKind::Apparent);
    assert_eq!(cli.unit(), Unit::Binary);
}

#[test]
fn a_depth_capped_scan_is_not_recorded() {
    let mut cli = Cli::default();
    assert!(cli.may_snapshot());
    cli.depth = Some(2);
    assert!(!cli.may_snapshot());
    cli.depth = None;
    cli.no_snapshot = true;
    assert!(!cli.may_snapshot());
}

#[test]
fn what_is_printed_goes_by_the_flags() {
    let mut cli = Cli::default();
    assert_eq!(cli.mode(true), Mode::Interactive);
    assert_eq!(cli.mode(false), Mode::Filesystems { details: false });
    cli.path = Some(FilePath::new("/"));
    assert_eq!(cli.mode(false), Mode::ScanPlain { details: false });
    cli.json = true;
    assert_eq!(cli.mode(true), Mode::ScanJson);
    cli.inodes = true;
    assert_eq!(cli.mode(true), Mode::Inodes);
    assert!(!cli.lists_everything());
    cli.all = true;
    assert!(cli.lists_everything());
}

#[test]
fn base64_matches_the_standard_including_its_padding() {
    assert_eq!(base64(b""), "");
    assert_eq!(base64(b"f"), "Zg==");
    assert_eq!(base64(b"fo"), "Zm8=");
    assert_eq!(base64(b"foo"), "Zm9v");
    assert_eq!(base64(b"foob"), "Zm9vYg==");
    assert_eq!(base64(b"fooba"), "Zm9vYmE=");
    assert_eq!(base64(b"foobar"), "Zm9vYmFy");
}

#[test]
fn a_path_survives_the_round_trip() {
    let path = "/Users/someone/Library/Application Support/über";
    let encoded = base64(path.as_bytes());
    assert!(!encoded.contains('\n'), "OSC 52 takes a single line");
    assert_eq!(decode(&encoded), path.as_bytes());
}

const ALPHABET: &[u8] = b"ABCDEFGHIJKLMNOPQRSTUVWXYZabcdefghijklmnopqrstuvwxyz0123456789+/";

/// Only the tests need to go the other way, so the decoder lives here.
fn decode(encoded: &str) -> Vec<u8> {
    let mut out = Vec::new();
    for chunk in encoded.as_bytes().chunks(4) {
        let digits: Vec<u32> = chunk
            .iter()
            .filter(|byte| **byte != b'=')
            .map(|byte| ALPHABET.iter().position(|it| it == byte).unwrap() as u32)
            .collect();
        let bits = digits
            .iter()
            .enumerate()
            .fold(0u32, |bits, (index, digit)| {
                bits | digit << (18 - 6 * index)
            });
        for index in 0..digits.len() - 1 {
            out.push((bits >> (16 - 8 * index)) as u8);
        }
    }
    out
}

#[test]
fn a_headless_box_leaves_the_escape_sequence_as_the_only_way_out() {
    assert!(helpers_for(Platform::Other, false, false).is_empty());
    assert_eq!(helpers_for(Platform::Other, true, false)[0].program, "wl-copy");
    assert_eq!(helpers_for(Platform::Other, false, true)[0].program, "xclip");
    assert_eq!(osc52("foo"), "\x1b]52;c;Zm9v\x07");
    // Over a remote shell the helpers would fill the wrong clipboard.
    assert!(helpers(true, Platform::Other, true, true).is_empty());
    assert!(unreachable_text("no tty").ends_with("no tty"));
}

#[test]
fn a_mac_always_has_pbcopy() {
    assert_eq!(helpers_for(Platform::MacOs, false, false)[0].program, "pbcopy");
}

fn program_and_args(path: &str, is_dir: bool, platform: Platform) -> (String, Vec<String>) {
    let call = command_for(&FilePath::new(path), is_dir, platform).unwrap();
    (
        call.program.to_string(),
        call.args
            .iter()
            .map(|arg| String::from_utf8(arg.clone()).unwrap())
            .collect(),
    )
}

#[test]
fn a_directory_is_opened_directly() {
    let (program, args) = program_and_args("/tmp/folder", true, Platform::MacOs);
    assert_eq!(program, "open");
    assert_eq!(args, ["/tmp/folder"]);

    let (program, _) = program_and_args("/tmp/folder", true, Platform::Windows);
    assert_eq!(program, "explorer");

    let (program, args) = program_and_args("/tmp/folder", true, Platform::Other);
    assert_eq!(program, "xdg-open");
    assert_eq!(args, ["/tmp/folder"]);
}

/// The important one: a file must never be handed to whatever application claims its extension.
#[test]
fn a_file_is_never_launched() {
    let file = "/tmp/folder/huge.mp4";

    // -R reveals rather than opens.
    let (program, args) = program_and_args(file, false, Platform::MacOs);
    assert_eq!(program, "open");
    assert_eq!(args, ["-R", "/tmp/folder/huge.mp4"]);

    let (_, args) = program_and_args(file, false, Platform::Windows);
    assert_eq!(args, ["/select,/tmp/folder/huge.mp4"]);

    // The folder, never the file.
    let (program, args) = program_and_args(file, false, Platform::Other);
    assert_eq!(program, "xdg-open");
    assert_eq!(args, ["/tmp/folder"]);
    assert!(!args.iter().any(|arg| arg.contains("huge.mp4")));
}

#[test]
fn a_file_with_no_parent_has_nowhere_to_go() {
    let folder = |path: &str, is_dir| {
        folder_for(&FilePath::new(path), is_dir).map(|folder| folder.display())
    };
    assert!(folder("/", false).is_none());
    assert_eq!(folder("/tmp/x", false), Some("/tmp".to_string()));
    assert_eq!(folder("/tmp/x", true), Some("/tmp/x".to_string()));
    assert_eq!(nowhere_to_go(&FilePath::new("/")), "no parent folder for /");
    assert!(not_found("xdg-open").starts_with("could not find xdg-open"));
}

#[test]
fn the_manager_is_named_for_the_platform() {
    for platform in [Platform::MacOs, Platform::Windows, Platform::Other] {
        assert!(!manager_name(platform).is_empty());
    }
    assert_eq!(manager_name(Platform::MacOs), "Finder");
}

#[test]
fn read_only_never_removes_anything() {
    let found = caches(&["/home/tester/.gradle/caches"], 0);
    let groups = group_by_rule(&found);
    for (yes, terminal) in [(true, true), (true, false), (false, true), (false, false)] {
        let opening = open_removal(
            &groups,
            Unit::Decimal,
            true,
            yes,
            terminal,
            Palette::plain(),
            &None,
        );
        assert!(matches!(opening, Opening::ReadOnly), "{opening:?}");
    }
}

#[test]
fn watching_prints_lines_when_asked_or_unseen() {
    let mut cli = Cli::default();
    assert!(!cli.watches_in_lines(true));
    assert!(cli.watches_in_lines(false));
    cli.plain = true;
    assert!(cli.watches_in_lines(true));
    assert!(cli.watches_in_lines(false));
    assert_ne!(cli.mode(true), Mode::Interactive);
}
