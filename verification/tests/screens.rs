//! Lays every screen out at real terminal sizes and checks what a person would actually see. Layout
//! bugs (a column that overflows, a section that eats the list, a percentage that survives on a
//! narrow window) only show up at specific widths, so they are pinned here.

use std::collections::BTreeSet;
use std::f64::consts::TAU;

use disko::app::{App, Confirm, Request, Settings};
use disko::canvas::Canvas;
use disko::categories::Surroundings;
use disko::deletion::{Deletion, DeleteProgress, Errand, OnDisk, Removal, Target};
use disko::double::Double;
use disko::file_manager::Platform;
use disko::keys::{press, Key};
use disko::model::Sort;
use disko::mounts::Filesystem;
use disko::palette::Rgb;
use disko::path::FilePath;
use disko::radial::{self, Bearing};
use disko::scan::{Cancel, Finished, ScanOptions};
use disko::screen::{centered, Area, Line, Tone};
use disko::size::{SizeKind, Unit};
use disko::tree::{DiskEntry, EntryType, ScanState};
use disko::views::View;
use disko::{confirm, details, explorer, footer, overview, picker, scanning};

const GB: u64 = 1_000_000_000;

const NOW: u64 = 1_800_604_800;

/// One cell of the screen: what is in it, how it is set, and what is behind it.
#[derive(Clone, Copy, Debug, PartialEq)]
struct Cell {
    letter: char,
    tone: Tone,
    back: Option<Rgb>,
}

const BLANK: Cell = Cell {
    letter: ' ',
    tone: Tone::Plain,
    back: None,
};

struct Frame {
    width: usize,
    height: usize,
    cells: Vec<Vec<Cell>>,
}

impl Frame {
    fn put(&mut self, x: usize, y: usize, width: usize, line: &Line) {
        let mut at = x;
        for span in &line.spans {
            for letter in span.text.chars() {
                if at < x + width && at < self.width && y < self.height {
                    self.cells[y][at] = Cell {
                        letter,
                        tone: span.tone,
                        back: None,
                    };
                }
                at += 1;
            }
        }
    }

    fn say(&mut self, x: usize, y: usize, width: usize, text: &str, tone: Tone) {
        let mut line = Line::new();
        line.say(text, tone);
        self.put(x, y, width, &line);
    }

    fn centre(&mut self, x: usize, y: usize, width: usize, line: &Line) {
        let length = line.plain().chars().count();
        let indent = width.saturating_sub(length) / 2;
        self.put(x + indent, y, width - indent, line);
    }

    fn popup(&mut self, area: Area, title: &str, lines: &[Line]) {
        let (x, y) = (area.x as usize, area.y as usize);
        let (width, height) = (area.width as usize, area.height as usize);
        for row in y..y + height {
            for column in x..x + width {
                self.cells[row][column] = BLANK;
            }
        }
        self.say(x, y, width, &"─".repeat(width), Tone::Plain);
        self.say(x + 1, y, width.saturating_sub(2), title, Tone::Plain);
        for (at, line) in lines.iter().enumerate() {
            if at + 2 < height {
                self.put(x + 1, y + 1 + at, width.saturating_sub(2), line);
            }
        }
        self.say(x, y + height - 1, width, &"─".repeat(width), Tone::Plain);
    }

    fn lines(&self) -> Vec<String> {
        self.cells
            .iter()
            .map(|row| {
                let line: String = row.iter().map(|cell| cell.letter).collect();
                line.trim_end().to_string()
            })
            .collect()
    }
}

/// A double as the library holds one: 53 bits and a power of two.
fn double(value: f64) -> Double {
    if value == 0.0 {
        return Double::zero();
    }
    let bits = value.to_bits();
    Double {
        mantissa: (bits & ((1 << 52) - 1)) | (1 << 52),
        exponent: ((bits >> 52) & 0x7ff) as i32 - 1075,
    }
}

fn bearings(width: usize, height: usize) -> Vec<Bearing> {
    let mut out = Vec::new();
    for y in 0..height {
        for x in 0..width {
            let dx = x as f64 + 0.5 - width as f64 / 2.0;
            let dy = y as f64 + 0.5 - height as f64 / 2.0;
            out.push(Bearing {
                radius: double((dx * dx + dy * dy).sqrt()),
                turn: double(dx.atan2(-dy).rem_euclid(TAU) / TAU),
            });
        }
    }
    out
}

/// Draws the chart, and says whether its highlight stands for a run of wedges.
fn draw_chart(frame: &mut Frame, app: &App, x: usize, y: usize, width: usize, height: usize) -> bool {
    if width < 8 || height < 4 {
        return false;
    }
    let chart = explorer::chart(app);
    let mut canvas = Canvas::new(width, height);
    let points = bearings(canvas.width(), canvas.height());
    let drawn = radial::render(&chart.segments, &mut canvas, &chart.options, &points);
    for (row, cells) in canvas.cell_rows().into_iter().enumerate() {
        for (column, cell) in cells.into_iter().enumerate() {
            let glyph = explorer::glyph(cell);
            frame.cells[y + row][x + column] = Cell {
                letter: glyph.letter,
                tone: glyph.front.map_or(Tone::Plain, Tone::Hue),
                back: glyph.back,
            };
        }
    }
    if let Some(hole) = explorer::hole(app, width, height) {
        let mut figure = Line::new();
        figure.say(&hole.figure, Tone::Heading);
        let mut name = Line::new();
        name.say(&hole.name, Tone::Muted);
        frame.centre(x + hole.x, y + hole.y, hole.width, &figure);
        frame.centre(x + hole.x, y + hole.y + 1, hole.width, &name);
    }
    drawn.selection_is_a_run
}

fn render(app: &App, width: u16, height: u16) -> Frame {
    let mut frame = Frame {
        width: width as usize,
        height: height as usize,
        cells: vec![vec![BLANK; width as usize]; height as usize],
    };
    let (last, inner) = (frame.height - 1, frame.width - 2);
    match app.view {
        View::Overview => {
            let (list, largest) = overview::split_body(app, frame.height, app.rows().len());
            frame.put(1, 0, inner, &overview::capacity_line(app, inner));
            if let Some(line) = overview::gauge_line(app, inner) {
                frame.put(1, 1, inner, &line);
            }
            if let Some(line) = overview::folder_line(app, NOW) {
                frame.put(1, 3, inner, &line);
            }
            let listing = overview::listing(app, inner);
            for (at, line) in listing.lines.iter().take(list).enumerate() {
                frame.put(1, 5 + at, inner, line);
            }
            for (at, line) in overview::largest_lines(app, largest).iter().enumerate() {
                frame.put(1, 5 + list + at, inner, line);
            }
        }
        View::Explorer => {
            let beside = explorer::legend_width(inner);
            let body = frame.height - 4;
            let a_run = draw_chart(&mut frame, app, 1, 2, inner - beside, body);
            frame.put(1, 0, inner, &explorer::trail_line(app, a_run, NOW));
            for (at, line) in explorer::legend(app, beside, body).iter().enumerate() {
                frame.put(1 + inner - beside, 2 + at, beside, line);
            }
            frame.put(1, last - 1, inner, &explorer::selected_line(app, inner));
        }
        View::Picker => {
            frame.say(1, 0, inner, "Disks", Tone::Heading);
            for (at, line) in picker::disks(app, inner).lines.iter().enumerate() {
                frame.put(1, 2 + at, inner, line);
            }
        }
        View::Scanning => {
            let lines = scanning::scanning(app, None, None, 0, inner as u16);
            for (at, line) in lines.iter().enumerate() {
                frame.centre(1, 2 + at, inner, line);
            }
            let room = frame.height.saturating_sub(7);
            for (at, line) in scanning::found(app, inner as u16, room).iter().enumerate() {
                frame.put(1, 6 + at, inner, line);
            }
        }
    }
    frame.put(1, last, inner, &footer::footer(app, inner, NOW));
    let area = Area {
        x: 0,
        y: 0,
        width,
        height,
    };
    if app.details {
        let facts = details::details(app, &nowhere(), NOW);
        let lines: Vec<Line> = facts.iter().map(|fact| fact.line()).collect();
        let popup = centered(area, 66, lines.len() as u16 + 2);
        frame.popup(popup, details::title(app), &lines);
    }
    if let Some(pending) = &app.confirm {
        let popup = confirm::panel(pending, area);
        let lines = confirm::confirmation(
            pending,
            &app.home,
            app.settings.unit,
            popup.width as usize,
        );
        frame.popup(popup, confirm::title(), &lines);
    }
    if let Some(deleting) = &app.deleting {
        let progress = DeleteProgress::new(1);
        let popup = centered(area, 68, 5);
        let lines = confirm::removal(app, deleting, &progress, popup.width);
        frame.popup(popup, " Deleting ", &lines);
    }
    frame
}

fn render_lines(app: &mut App, width: u16, height: u16) -> Option<Vec<String>> {
    Some(render(app, width, height).lines())
}

fn nowhere() -> Surroundings {
    Surroundings {
        home: None,
        present: Vec::new(),
    }
}

fn at(text: &str) -> FilePath {
    FilePath::new(text)
}

fn dir(path: &str, size: u64, children: Vec<DiskEntry>) -> DiskEntry {
    let mut entry = DiskEntry::new(path, EntryType::Directory);
    entry.allocated_size = size;
    entry.apparent_size = size;
    entry.items = 1 + children.iter().map(|c| c.items).sum::<u64>();
    entry.children = children;
    entry
}

/// A tree shaped like the machine in the design sketch.
fn macintosh() -> DiskEntry {
    dir(
        "/",
        404 * GB,
        vec![
            dir(
                "/Users",
                257 * GB,
                vec![dir(
                    "/Users/cesar",
                    255 * GB,
                    vec![
                        dir("/Users/cesar/Library", 71 * GB, vec![]),
                        dir("/Users/cesar/Downloads", 48 * GB, vec![]),
                        dir("/Users/cesar/code", 32 * GB, vec![]),
                        dir("/Users/cesar/Movies", 19 * GB, vec![]),
                    ],
                )],
            ),
            dir("/Library", 84 * GB, vec![]),
            dir("/Applications", 34 * GB, vec![]),
            dir("/System", 12 * GB, vec![]),
            dir("/private", 4 * GB, vec![]),
            dir("/opt", 3 * GB, vec![]),
        ],
    )
}

fn filesystem() -> Filesystem {
    Filesystem {
        name: "Macintosh HD".to_string(),
        mount_point: at("/"),
        device: "/dev/disk3s1s1".to_string(),
        fs_type: "apfs".to_string(),
        total: 494 * GB,
        used: 404 * GB,
        available: 90 * GB,
        read_only: false,
        removable: false,
        kind: "SSD".to_string(),
        pseudo: false,
        inodes: None,
    }
}

fn app() -> App {
    let mut app = App::new(
        Settings {
            size_kind: SizeKind::Allocated,
            unit: Unit::Decimal,
            top: 20,
            scan_options: ScanOptions::default(),
            show_all_filesystems: false,
            // Tests must never touch the user's real snapshot history.
            record_snapshots: false,
        },
        false,
        Vec::new(),
        None,
    );
    app.root = at("/");
    app.cwd = at("/");
    app.tree = Some(macintosh());
    app.filesystem = Some(filesystem());
    app.view = View::Overview;
    app
}

fn joined(lines: &[String]) -> String {
    lines.join("\n")
}

#[test]
fn the_overview_answers_the_three_questions() {
    let lines = render_lines(&mut app(), 100, 30).unwrap();
    let screen = joined(&lines);

    // What is full?
    assert!(screen.contains("Macintosh HD"), "{screen}");
    assert!(screen.contains("404 GB used of 494 GB"), "{screen}");
    assert!(screen.contains("82%"), "{screen}");

    // What is using the space?
    assert!(screen.contains("257 GB"));
    assert!(screen.contains("Users"));
    assert!(screen.contains('█'), "expected bars\n{screen}");

    // Where should I look next?
    assert!(screen.contains("Largest items"), "{screen}");
    assert!(screen.contains("/Users/cesar"), "{screen}");

    // And the keys to go on with.
    assert!(screen.contains("Enter explore"));
    assert!(screen.contains("q quit"));
}

#[test]
fn disk_capacity_and_directory_usage_are_never_the_same_line() {
    let lines = render_lines(&mut app(), 100, 30).unwrap();

    let capacity = lines.iter().find(|l| l.contains("used of")).unwrap();
    let folder = lines.iter().find(|l| l.contains("Current folder")).unwrap();

    assert!(capacity.contains("Macintosh HD"));
    assert!(capacity.contains("494 GB"), "capacity is the whole volume");
    assert!(
        folder.contains("404 GB"),
        "the folder line is the scanned tree"
    );
    assert!(!folder.contains("494 GB"));
}

#[test]
fn filesystem_language_stays_out_of_the_default_view() {
    let screen = joined(&render_lines(&mut app(), 100, 30).unwrap());

    for jargon in ["apfs", "/dev/disk3s1s1", "inode", "block"] {
        assert!(
            !screen.to_lowercase().contains(jargon),
            "{jargon} should live behind d/--details, but the default view shows:\n{screen}"
        );
    }
}

#[test]
fn details_puts_the_filesystem_facts_one_key_away() {
    let mut app = app();
    press(&mut app, Key::Char('d'));
    let screen = joined(&render_lines(&mut app, 100, 30).unwrap());

    assert!(screen.contains("/dev/disk3s1s1"), "{screen}");
    assert!(screen.contains("apfs"), "{screen}");
    assert!(screen.contains("Read-only"), "{screen}");
}

#[test]
fn narrow_terminals_drop_the_percentage_before_the_bar() {
    let wide = joined(&render_lines(&mut app(), 100, 30).unwrap());
    let narrow = joined(&render_lines(&mut app(), 60, 30).unwrap());

    assert!(wide.contains("63.6%"), "{wide}");
    assert!(!narrow.contains("63.6%"), "{narrow}");
    assert!(narrow.contains('█'), "the bar survives\n{narrow}");
    assert!(narrow.contains("257 GB"), "so does the size\n{narrow}");
}

#[test]
fn nothing_overflows_the_terminal_width() {
    for width in [40u16, 60, 80, 100, 140] {
        for view in [View::Overview, View::Explorer, View::Picker] {
            let mut app = app();
            app.view = view;
            // A small entry, so the explorer's "too small to place" note is on
            // screen: it is the longest thing the breadcrumb line ever carries.
            app.selection = 5;
            for line in render_lines(&mut app, width, 30).unwrap() {
                assert!(
                    line.chars().count() <= width as usize,
                    "{view:?} at {width} columns produced a {}-char line: {line}",
                    line.chars().count()
                );
            }
        }
    }
}

#[test]
fn a_short_terminal_keeps_the_ranked_list_and_drops_the_extras() {
    let short = joined(&render_lines(&mut app(), 100, 12).unwrap());

    assert!(short.contains("Users"), "the answer survives\n{short}");
    assert!(short.contains("Macintosh HD"), "{short}");
    assert!(
        !short.contains("Largest items"),
        "the nice-to-have goes first\n{short}"
    );
}

#[test]
fn the_explorer_draws_a_sunburst_with_a_legend() {
    let mut app = app();
    press(&mut app, Key::Enter);
    assert_eq!(app.view, View::Explorer);

    let lines = render_lines(&mut app, 100, 30).unwrap();
    let screen = joined(&lines);

    // Breadcrumb, chart, legend, keys.
    assert!(screen.starts_with(" Macintosh HD"), "{screen}");
    assert!(
        screen.contains('▀') || screen.contains('▄'),
        "no chart drawn\n{screen}"
    );
    assert!(screen.contains("■"), "no legend swatches\n{screen}");
    assert!(screen.contains("Enter open"), "{screen}");
    // The hole in the middle carries the directory total.
    assert!(screen.contains("404 GB"), "{screen}");
}

/// A downloads folder is a column of sixty-character release names, and the
/// legend can spare twenty. Whichever one is selected gets a full-width line
/// of its own under the chart, or its name is simply unreadable.
#[test]
fn the_selected_name_is_repeated_in_full_under_the_chart() {
    const LONG: &str = "Sonic.The.Hedgehog.2.2022.2160p.WEB-DL.DDP5.1.Atmos.HDR.HEVC-CMRG";

    let screen_with_selection = |selection: usize| {
        let mut app = app();
        app.tree = Some(dir(
            "/",
            10 * GB,
            vec![
                dir(&format!("/{LONG}"), 6 * GB, vec![]),
                dir("/Movies", 4 * GB, vec![]),
            ],
        ));
        app.view = View::Explorer;
        app.selection = selection;
        joined(&render_lines(&mut app, 100, 30).unwrap())
    };

    let selected = screen_with_selection(0);
    assert!(
        selected.contains(LONG),
        "the selected name is still cut off\n{selected}"
    );
    assert!(
        selected.contains("6 GB"),
        "and it says how big it is\n{selected}"
    );

    let elsewhere = screen_with_selection(1);
    assert!(
        !elsewhere.contains(LONG),
        "the line follows the cursor\n{elsewhere}"
    );
}

/// The reported bug: past the biggest few entries the chart stopped
/// responding, because every remaining wedge was thinner than a pixel and the
/// highlight had nothing to paint. Two different small rows must not draw the
/// same chart.
#[test]
fn selecting_a_small_entry_still_moves_the_highlight() {
    // Only the chart: the legend on the right always moves its own cursor, so
    // comparing whole screens would pass even with a dead chart.
    let chart_for = |selection: usize| {
        let mut app = app();
        app.view = View::Explorer;
        app.selection = selection;
        let row = app.selected_row().unwrap();
        // Small enough that the wedge is sub-pixel: this is the case that broke.
        let share = row.fraction.mantissa as f64 * 2f64.powi(row.fraction.exponent);
        assert!(share < 0.02, "{} is not a small row", row.name);

        let frame = render(&app, 100, 30);
        (0..30)
            .flat_map(|y| (0..60).map(move |x| (x, y)))
            .map(|(x, y)| frame.cells[y][x])
            .collect::<Vec<_>>()
    };

    assert_ne!(
        chart_for(4),
        chart_for(5),
        "the highlight did not move between two small entries"
    );
}

/// A real `~/Library` is a handful of huge entries and a long tail of tiny
/// ones. Every row has to change the chart — for the tail that means the
/// highlight band takes the colour of the row you are on, since the entries
/// themselves share a pixel of arc and cannot be told apart.
#[test]
fn every_row_of_a_long_tail_changes_the_chart() {
    const MB: u64 = 1_000_000;
    const KB: u64 = 1_000;

    let sizes = [
        58 * GB,
        49 * GB,
        14 * GB,
        12 * GB,
        10 * GB,
        8 * GB,
        4 * GB,
        736 * MB,
        551 * MB,
        157 * MB,
        122 * MB,
        100 * MB,
        47 * MB,
        10 * MB,
        3 * MB,
        696 * KB,
        213 * KB,
        57 * KB,
        25 * KB,
    ];
    let library = dir(
        "/Library",
        sizes.iter().sum(),
        sizes
            .iter()
            .enumerate()
            .map(|(index, size)| dir(&format!("/Library/entry{index:02}"), *size, vec![]))
            .collect(),
    );

    let chart_for = |selection: usize| {
        let mut app = app();
        app.tree = Some(library.duplicate());
        app.root = at("/Library");
        app.cwd = at("/Library");
        app.view = View::Explorer;
        app.selection = selection;

        let frame = render(&app, 100, 30);
        // The chart only: the legend moves its own cursor regardless.
        (0..30)
            .flat_map(|y| (0..60).map(move |x| (x, y)))
            .map(|(x, y)| frame.cells[y][x])
            .collect::<Vec<_>>()
    };

    for selection in 1..sizes.len() {
        assert_ne!(
            chart_for(selection - 1),
            chart_for(selection),
            "rows {} and {selection} draw the same chart",
            selection - 1
        );
    }
}

/// A highlight on a sub-pixel wedge can only honestly mean "somewhere in this
/// run", so the screen says so rather than let the cursor look stuck.
#[test]
fn the_breadcrumb_admits_when_a_wedge_is_too_small_to_place() {
    let screen_for = |selection: usize| {
        let mut app = app();
        app.view = View::Explorer;
        app.selection = selection;
        render_lines(&mut app, 100, 30).unwrap()
    };

    // /Users is 64% of the disk: its wedge is most of the ring.
    let big = screen_for(0);
    assert!(!joined(&big).contains("too small"), "{}", joined(&big));

    // /opt is 0.7%, which is a fraction of a pixel of arc.
    let tail = screen_for(5);
    assert!(
        tail[0].contains("0.7% of this folder — too small to place"),
        "{}",
        tail[0]
    );
    // The note lives up there precisely so the keys keep their room.
    assert!(
        tail.last().unwrap().contains("x delete"),
        "{:?}",
        tail.last()
    );
}

#[test]
fn drilling_down_moves_the_breadcrumb_and_the_chart() {
    let mut app = app();
    press(&mut app, Key::Enter); // to the explorer
    press(&mut app, Key::Enter); // into Users, the largest

    assert_eq!(app.cwd.display(), "/Users");
    let screen = joined(&render_lines(&mut app, 100, 30).unwrap());
    assert!(screen.contains("Macintosh HD › Users"), "{screen}");
    assert!(screen.contains("257 GB"), "{screen}");
}

#[test]
fn the_picker_lists_disks_when_no_path_was_given() {
    let mut app = app();
    app.view = View::Picker;
    app.filesystems = vec![filesystem()];

    let screen = joined(&render_lines(&mut app, 100, 20).unwrap());
    assert!(screen.contains("Disks"), "{screen}");
    assert!(screen.contains("Macintosh HD"), "{screen}");
    assert!(screen.contains("90 GB free of 494 GB"), "{screen}");
    assert!(screen.contains("Enter scan"), "{screen}");
}

#[test]
fn searching_narrows_the_list_live() {
    let mut app = app();
    press(&mut app, Key::Char('/'));
    for ch in "app".chars() {
        press(&mut app, Key::Char(ch));
    }

    let screen = joined(&render_lines(&mut app, 100, 30).unwrap());
    assert!(screen.contains("/app"), "the query is echoed\n{screen}");
    assert!(screen.contains("Applications"), "{screen}");
    assert!(!screen.contains("  Library "), "{screen}");
}

#[test]
fn sorting_is_visible_and_reversible() {
    let mut app = app();
    press(&mut app, Key::Char('s'));
    assert_eq!(app.sort, Sort::Name);
    assert!(joined(&render_lines(&mut app, 100, 30).unwrap()).contains("sorted by name"));

    press(&mut app, Key::Char('s'));
    press(&mut app, Key::Char('s'));
    assert_eq!(app.sort, Sort::Size);
}

#[test]
fn marking_shows_how_much_would_be_freed() {
    let mut app = app();
    press(&mut app, Key::Char(' '));

    let screen = joined(&render_lines(&mut app, 100, 30).unwrap());
    assert!(screen.contains("1 marked · 257 GB"), "{screen}");
}

#[test]
fn an_empty_directory_says_so_instead_of_showing_a_blank_panel() {
    let mut app = app();
    app.cwd = at("/opt");

    let screen = joined(&render_lines(&mut app, 100, 30).unwrap());
    assert!(screen.contains("this folder is empty"), "{screen}");
}

#[test]
fn a_scan_with_unreadable_folders_admits_it() {
    let mut app = app();
    if let Some(tree) = &mut app.tree {
        tree.scan_state = ScanState::Partial;
    }

    let screen = joined(&render_lines(&mut app, 100, 30).unwrap());
    assert!(
        screen.contains("some folders skipped or unreadable"),
        "{screen}"
    );
}

/// The state of the same machine a week earlier, for the growth view.
fn macintosh_last_week() -> DiskEntry {
    dir(
        "/",
        322 * GB,
        vec![
            dir(
                "/Users",
                211 * GB,
                vec![dir(
                    "/Users/cesar",
                    209 * GB,
                    vec![
                        dir("/Users/cesar/Library", 25 * GB, vec![]),
                        dir("/Users/cesar/Downloads", 48 * GB, vec![]),
                        dir("/Users/cesar/code", 32 * GB, vec![]),
                        dir("/Users/cesar/Movies", 19 * GB, vec![]),
                    ],
                )],
            ),
            dir("/Library", 84 * GB, vec![]),
            dir("/System", 12 * GB, vec![]),
            dir("/opt", 3 * GB, vec![]),
        ],
    )
}

/// An app that knows what changed over the last week.
fn app_with_history() -> App {
    let mut app = app();
    let before = macintosh_last_week();
    let after = macintosh();
    app.diff = Some(disko::diff::diff(
        &before,
        &after,
        SizeKind::Allocated,
        1_800_000_000,
        1_800_604_800,
        0,
    ));
    app
}

#[test]
fn pressing_t_without_a_previous_scan_explains_itself() {
    let mut app = app();
    press(&mut app, Key::Char('t'));

    assert!(!app.showing_growth());
    let screen = joined(&render_lines(&mut app, 100, 30).unwrap());
    assert!(screen.contains("no earlier scan"), "{screen}");
}

#[test]
fn pressing_t_switches_the_whole_view_to_what_changed() {
    let mut app = app_with_history();
    press(&mut app, Key::Char('t'));
    assert!(app.showing_growth());

    let screen = joined(&render_lines(&mut app, 100, 30).unwrap());

    // Signed changes, not absolute sizes, and the window they cover.
    assert!(screen.contains("+82 GB"), "{screen}");
    assert!(screen.contains("in 7 days"), "{screen}");
    assert!(
        screen.contains("+46 GB"),
        "growth of Users should show\n{screen}"
    );
    // The capacity header still describes the filesystem, unchanged.
    assert!(screen.contains("404 GB used of 494 GB"), "{screen}");
}

#[test]
fn growth_mode_shows_both_directions() {
    let mut app = app_with_history();
    app.cwd = at("/");
    press(&mut app, Key::Char('t'));

    let screen = joined(&render_lines(&mut app, 100, 30).unwrap());
    // Applications is new this week; System did not move and is not listed.
    assert!(screen.contains("Applications"), "{screen}");
    assert!(
        !screen.contains("System"),
        "unchanged entries stay out\n{screen}"
    );
}

#[test]
fn growth_mode_survives_every_terminal_width() {
    for width in [40u16, 60, 80, 100, 140] {
        for view in [View::Overview, View::Explorer] {
            let mut app = app_with_history();
            app.view = view;
            press(&mut app, Key::Char('t'));
            for line in render_lines(&mut app, width, 30).unwrap() {
                assert!(
                    line.chars().count() <= width as usize,
                    "growth {view:?} at {width} columns overflowed: {line}"
                );
            }
        }
    }
}

#[test]
fn the_explorer_charts_growth_when_growth_is_selected() {
    let mut app = app_with_history();
    press(&mut app, Key::Char('t'));
    press(&mut app, Key::Enter);
    assert_eq!(app.view, View::Explorer);

    let screen = joined(&render_lines(&mut app, 100, 30).unwrap());
    assert!(
        screen.contains('▀') || screen.contains('▄'),
        "no chart\n{screen}"
    );
    // The hole carries the total change rather than the total size.
    assert!(screen.contains("+82 GB"), "{screen}");
    assert!(screen.contains("■"), "{screen}");
}

#[test]
fn toggling_back_returns_to_sizes() {
    let mut app = app_with_history();
    press(&mut app, Key::Char('t'));
    press(&mut app, Key::Char('t'));

    assert!(!app.showing_growth());
    let screen = joined(&render_lines(&mut app, 100, 30).unwrap());
    assert!(screen.contains("Largest items"), "{screen}");
    assert!(!screen.contains("+46 GB"), "{screen}");
}

#[test]
fn the_details_panel_reports_what_changed_and_what_made_it() {
    let mut app = app_with_history();
    press(&mut app, Key::Char('d'));

    let screen = joined(&render_lines(&mut app, 110, 34).unwrap());
    assert!(screen.contains("Change (7 days)"), "{screen}");
    assert!(screen.contains("+46 GB"), "{screen}");
    assert!(screen.contains("Current size"), "{screen}");
}

#[test]
fn growth_is_advertised_in_the_footer() {
    let screen = joined(&render_lines(&mut app(), 100, 30).unwrap());
    assert!(screen.contains("t growth"), "{screen}");
}


// ---------------------------------------------------------------------------
// Deleting
// ---------------------------------------------------------------------------

/// A tree to delete from, which exists only here.
struct Sandbox {
    paths: BTreeSet<String>,
}

const SANDBOX: &str = "/tmp/sandbox";

impl Sandbox {
    fn new() -> Self {
        let mut sandbox = Self {
            paths: BTreeSet::new(),
        };
        for path in ["", "/cache", "/keep", "/cache/blob", "/keep/notes"] {
            sandbox.paths.insert(format!("{SANDBOX}{path}"));
        }
        sandbox
    }

    fn has(&self, name: &str) -> bool {
        self.paths.contains(&format!("{SANDBOX}/{name}"))
    }

    fn look(&self, path: &FilePath) -> Option<OnDisk> {
        self.paths.contains(&path.display()).then_some(OnDisk {
            is_dir: true,
            device: 1,
            parent_device: Some(1),
        })
    }

    fn remove(&mut self, path: &FilePath) {
        self.paths.retain(|entry| !at(entry).starts_with(path));
    }
}

/// Carries out whatever deletion the app asked for, and folds the outcome back in.
fn settle(app: &mut App, sandbox: &mut Sandbox) {
    for request in std::mem::take(&mut app.requests) {
        if let Request::Delete { targets } = request {
            let mut deletion = Deletion::new(targets, app.root.duplicate());
            while let Errand::Look(path) = deletion.next(Cancel::new()) {
                if deletion.looked(sandbox.look(&path)) {
                    sandbox.remove(&path);
                    deletion.removed(Removal::Gone);
                }
            }
            app.deleting = None;
            app.apply_outcomes(deletion.outcomes);
        }
    }
}

/// A clipboard and a file manager that always do as they are asked.
fn carry_out(app: &mut App) {
    for request in std::mem::take(&mut app.requests) {
        match request {
            Request::Copy { path } => app.copied(&path, &None),
            Request::Show { path, is_dir } => {
                app.revealed(&path, is_dir, Platform::Other, &None)
            }
            _ => {}
        }
    }
}

/// An app over the sandbox.
fn app_over(_: &Sandbox) -> App {
    let mut app = app();
    app.tree = Some(dir(
        SANDBOX,
        16_384,
        vec![
            dir("cache", 8_192, vec![dir("blob", 4_096, vec![])]),
            dir("keep", 4_096, vec![dir("notes", 100, vec![])]),
        ],
    ));
    app.root = at(SANDBOX);
    app.cwd = at(SANDBOX);
    app.filesystem = None;
    app
}

fn type_word(app: &mut App, word: &str) {
    for ch in word.chars() {
        press(app, Key::Char(ch));
    }
}

#[test]
fn deleting_asks_before_it_does_anything() {
    let sandbox = Sandbox::new();
    let mut app = app_over(&sandbox);

    press(&mut app, Key::Char('x'));

    let screen = joined(&render_lines(&mut app, 100, 30).unwrap());
    assert!(screen.contains("This cannot be undone"), "{screen}");
    assert!(screen.contains("Permanently delete"), "{screen}");
    assert!(screen.contains("Type delete to confirm"), "{screen}");
    // Still there, obviously.
    assert!(sandbox.has("cache/blob"));
}

#[test]
fn escape_calls_the_whole_thing_off() {
    let sandbox = Sandbox::new();
    let mut app = app_over(&sandbox);

    press(&mut app, Key::Char('x'));
    press(&mut app, Key::Esc);

    assert!(app.confirm.is_none());
    assert!(sandbox.has("cache/blob"));
    assert_eq!(app.status.as_deref(), Some("nothing was deleted"));
}

/// The guard that matters most: Enter on its own must not be enough.
#[test]
fn enter_alone_does_not_delete() {
    let sandbox = Sandbox::new();
    let mut app = app_over(&sandbox);

    press(&mut app, Key::Char('x'));
    press(&mut app, Key::Enter);

    assert!(app.confirm.is_some(), "the prompt should still be up");
    assert!(sandbox.has("cache/blob"));
    let screen = joined(&render_lines(&mut app, 100, 30).unwrap());
    assert!(screen.contains("type delete first"), "{screen}");
}

#[test]
fn a_half_typed_word_is_not_enough_either() {
    let sandbox = Sandbox::new();
    let mut app = app_over(&sandbox);

    press(&mut app, Key::Char('x'));
    type_word(&mut app, "del");
    press(&mut app, Key::Enter);

    assert!(sandbox.has("cache/blob"));
    assert!(app.confirm.is_some());
}

#[test]
fn typing_the_word_and_pressing_enter_deletes_and_corrects_the_totals() {
    let mut sandbox = Sandbox::new();
    let mut app = app_over(&sandbox);
    let before = app.current_entry().unwrap().allocated_size;

    // "cache" is the largest, so it is the selected row.
    press(&mut app, Key::Char('x'));
    type_word(&mut app, "delete");
    press(&mut app, Key::Enter);
    settle(&mut app, &mut sandbox);

    assert!(!sandbox.has("cache"), "it should be gone");
    assert!(sandbox.has("keep/notes"), "and nothing else");

    // The totals fix themselves without a rescan.
    let after = app.current_entry().unwrap().allocated_size;
    assert!(after < before);
    assert!(app.rows().iter().all(|row| row.name != "cache"));

    let status = app.status.clone().unwrap();
    assert!(status.starts_with("deleted 1"), "{status}");
    assert!(status.contains("freed"), "{status}");
}

#[test]
fn marked_entries_are_deleted_together() {
    let mut sandbox = Sandbox::new();
    let mut app = app_over(&sandbox);

    press(&mut app, Key::Char(' ')); // mark "cache"
    press(&mut app, Key::Down);
    press(&mut app, Key::Char(' ')); // mark "keep"
    press(&mut app, Key::Char('x'));

    let screen = joined(&render_lines(&mut app, 100, 30).unwrap());
    assert!(screen.contains("Permanently delete 2 items"), "{screen}");

    type_word(&mut app, "delete");
    press(&mut app, Key::Enter);
    settle(&mut app, &mut sandbox);

    assert!(!sandbox.has("cache"));
    assert!(!sandbox.has("keep"));
    assert!(
        app.marks.is_empty(),
        "marks should not outlive their targets"
    );
}

#[test]
fn navigation_keys_cannot_reach_the_list_behind_the_prompt() {
    let sandbox = Sandbox::new();
    let mut app = app_over(&sandbox);
    let cwd = app.cwd.display();

    press(&mut app, Key::Char('x'));
    for key in [Key::Down, Key::Right, Key::Left, Key::Tab] {
        press(&mut app, key);
    }

    assert_eq!(app.cwd.display(), cwd, "navigation must not happen behind the prompt");
    assert_eq!(app.selection, 0);
    assert!(app.confirm.is_some());
    assert!(sandbox.has("cache/blob"));
}

#[test]
fn read_only_mode_refuses_to_even_ask() {
    let sandbox = Sandbox::new();
    let mut app = app_over(&sandbox);
    app.read_only = true;

    press(&mut app, Key::Char('x'));

    assert!(app.confirm.is_none());
    assert_eq!(app.status.as_deref(), Some("disko is running read-only"));
    assert!(sandbox.has("cache/blob"));
}

#[test]
fn read_only_mode_deletes_nothing_even_when_confirmed() {
    let mut sandbox = Sandbox::new();
    let mut app = app_over(&sandbox);
    press(&mut app, Key::Char('x'));
    for letter in "delete".chars() {
        press(&mut app, Key::Char(letter));
    }
    app.read_only = true;

    press(&mut app, Key::Enter);
    settle(&mut app, &mut sandbox);

    assert!(app.confirm.is_none());
    assert!(app.deleting.is_none());
    assert_eq!(app.status.as_deref(), Some("disko is running read-only"));
    assert!(sandbox.has("cache/blob"));
}

#[test]
fn the_scan_root_itself_can_never_be_deleted() {
    let mut sandbox = Sandbox::new();
    let mut app = app_over(&sandbox);
    // Force the root in as a target, the way no UI path would allow.
    app.confirm = Some(Confirm {
        targets: vec![Target {
            path: at(SANDBOX),
            size: 4000,
            is_dir: true,
        }],
        typed: "delete".to_string(),
        nagged: false,
    });

    press(&mut app, Key::Enter);
    settle(&mut app, &mut sandbox);

    assert!(sandbox.look(&at(SANDBOX)).is_some(), "the scanned folder must survive");
    let status = app.status.clone().unwrap();
    assert!(status.contains("nothing could be deleted"), "{status}");
}

#[test]
fn delete_is_advertised_in_the_footer() {
    let screen = joined(&render_lines(&mut app(), 100, 30).unwrap());
    assert!(screen.contains("x delete"), "{screen}");
}


// ---------------------------------------------------------------------------
// Opening instantly
// ---------------------------------------------------------------------------

#[test]
fn last_known_numbers_are_labelled_as_last_known() {
    let mut app = app();
    // Two hours ago, while a fresh scan is on its way.
    app.provisional = Some(NOW - 7200);

    let screen = joined(&render_lines(&mut app, 100, 30).unwrap());

    assert!(screen.contains("as of 2 hours ago"), "{screen}");
    assert!(screen.contains("rescanning"), "{screen}");
    // The numbers themselves are still shown — they are real, just old.
    assert!(screen.contains("257 GB"), "{screen}");
}

#[test]
fn the_explorer_says_so_too() {
    let mut app = app();
    app.provisional = Some(NOW - 90);
    app.view = View::Explorer;

    let screen = joined(&render_lines(&mut app, 100, 30).unwrap());
    assert!(screen.contains("rescanning"), "{screen}");
}

#[test]
fn the_label_disappears_once_the_real_scan_lands() {
    let mut app = app();
    app.provisional = Some(NOW - 7200);
    assert!(joined(&render_lines(&mut app, 100, 30).unwrap()).contains("rescanning"));

    app.provisional = None;

    let screen = joined(&render_lines(&mut app, 100, 30).unwrap());
    assert!(!screen.contains("rescanning"), "{screen}");
    assert!(!screen.contains("as of"), "{screen}");
}

#[test]
fn a_running_scan_shows_what_it_has_already_counted() {
    let mut app = app();
    app.view = View::Scanning;
    app.root = at("/");
    app.streamed = vec![
        Finished {
            path: at("/Users/cesar/Library"),
            allocated: 71 * GB,
            apparent: 71 * GB,
            items: 900,
        },
        Finished {
            path: at("/Users/cesar/Downloads"),
            allocated: 48 * GB,
            apparent: 48 * GB,
            items: 120,
        },
    ];

    let screen = joined(&render_lines(&mut app, 100, 24).unwrap());

    assert!(screen.contains("Biggest so far"), "{screen}");
    assert!(screen.contains("71 GB"), "{screen}");
    assert!(screen.contains("Library"), "{screen}");
    assert!(screen.contains("Scanning"), "{screen}");
}

#[test]
fn the_progress_screen_survives_a_short_terminal() {
    let mut app = app();
    app.view = View::Scanning;
    app.streamed = (0..12)
        .map(|index| Finished {
            path: at(&format!("/some/deep/path/number-{index}")),
            allocated: (12 - index) * GB,
            apparent: 0,
            items: 1,
        })
        .collect();

    for (width, height) in [(40u16, 10u16), (60, 14), (100, 24), (140, 40)] {
        for line in render_lines(&mut app, width, height).unwrap() {
            assert!(
                line.chars().count() <= width as usize,
                "scanning at {width}x{height} overflowed: {line}"
            );
        }
    }
}

/// The reported bug: deleting 68 GB blocked the draw loop, so the whole
/// interface appeared to hang with no output and no way to interrupt it.
#[test]
fn a_running_deletion_keeps_the_interface_alive() {
    let mut sandbox = Sandbox::new();

    let mut app = app_over(&sandbox);
    press(&mut app, Key::Char('x'));
    type_word(&mut app, "delete");
    press(&mut app, Key::Enter);

    // Control comes straight back rather than blocking until it is done.
    assert!(app.deleting.is_some(), "the deletion should be in flight");

    // And the screen renders, showing progress rather than a frozen frame.
    let screen = joined(&render_lines(&mut app, 100, 30).unwrap());
    assert!(screen.contains("Deleting"), "{screen}");
    assert!(screen.contains("Esc to stop"), "{screen}");

    settle(&mut app, &mut sandbox);
    assert!(!sandbox.has("cache"));
    assert!(app.status.unwrap().contains("freed"));
}

#[test]
fn escape_during_a_deletion_asks_it_to_stop_rather_than_doing_nothing() {
    let mut sandbox = Sandbox::new();

    let mut app = app_over(&sandbox);
    press(&mut app, Key::Char('x'));
    type_word(&mut app, "delete");
    press(&mut app, Key::Enter);
    press(&mut app, Key::Esc);

    if let Some(deleting) = &app.deleting {
        assert!(deleting.is_stopping());
        let screen = joined(&render_lines(&mut app, 100, 30).unwrap());
        assert!(screen.contains("Stopping"), "{screen}");
    }
    settle(&mut app, &mut sandbox);
    assert!(app.deleting.is_none());
}

#[test]
fn navigation_is_locked_out_while_files_are_being_removed() {
    let mut sandbox = Sandbox::new();

    let mut app = app_over(&sandbox);
    let cwd = app.cwd.display();
    press(&mut app, Key::Char('x'));
    type_word(&mut app, "delete");
    press(&mut app, Key::Enter);

    for key in [Key::Right, Key::Down, Key::Char('q')] {
        press(&mut app, key);
    }
    assert_eq!(app.cwd.display(), cwd, "the tree must not move while it is changing");
    assert!(
        !app.quit,
        "quitting mid-delete would abandon a partial removal"
    );

    settle(&mut app, &mut sandbox);
}


// ---------------------------------------------------------------------------
// Footer and revealing
// ---------------------------------------------------------------------------

#[test]
fn shortcut_keys_are_coloured_apart_from_their_descriptions() {
    let app = app();
    let frame = render(&app, 110, 30);
    let last = 29;

    // Find the "q" of "q quit" and the "u" just after it in "quit".
    let row: Vec<char> = frame.cells[last].iter().map(|cell| cell.letter).collect();
    let hint: Vec<char> = "q quit".chars().collect();
    let quit_at = row
        .windows(hint.len())
        .position(|window| window == hint)
        .expect("the quit hint should be there");

    let key_style = frame.cells[last][quit_at].tone;
    let label_style = frame.cells[last][quit_at + 2].tone;

    assert_ne!(
        key_style, label_style,
        "the key and its description should not be the same colour"
    );
}

#[test]
fn the_footer_advertises_revealing_in_the_file_manager() {
    let screen = joined(&render_lines(&mut app(), 130, 30).unwrap());
    assert!(screen.contains("o reveal"), "{screen}");
}

#[test]
fn the_way_out_survives_even_the_narrowest_terminal() {
    for width in [24u16, 32, 40, 56, 80, 120, 200] {
        for view in [View::Overview, View::Explorer, View::Picker] {
            let mut app = app();
            app.view = view;
            let lines = render_lines(&mut app, width, 30).unwrap();
            let footer = lines.last().unwrap();

            let escape = match view {
                View::Explorer => "Esc",
                _ => "q",
            };
            assert!(
                footer.contains(escape),
                "{view:?} at {width} columns lost its way out: {footer:?}"
            );
            assert!(
                footer.chars().count() <= width as usize,
                "{view:?} at {width} overflowed: {footer:?}"
            );
        }
    }
}

#[test]
fn hints_are_dropped_from_the_least_important_end() {
    let mut app = app();
    let wide = render_lines(&mut app, 140, 30)
        .unwrap()
        .last()
        .unwrap()
        .clone();
    let narrow = render_lines(&mut app, 46, 30)
        .unwrap()
        .last()
        .unwrap()
        .clone();

    // The most useful hint stays, the tail goes.
    assert!(wide.contains("Enter explore"), "{wide}");
    assert!(narrow.contains("Enter explore"), "{narrow}");
    assert!(wide.contains("d details"), "{wide}");
    assert!(!narrow.contains("d details"), "{narrow}");
}

#[test]
fn copying_reports_the_path_it_put_on_the_clipboard() {
    let mut app = app();
    app.selection = 1;
    let expected = app.selected_row().unwrap().path.unwrap();

    press(&mut app, Key::Char('y'));
    carry_out(&mut app);

    let status = app.status.clone().unwrap();
    assert!(status.starts_with("copied"), "{status}");
    assert!(
        status.ends_with(&expected.display()),
        "{status}"
    );
}

/// A group row stands for several paths, so there is no single one to copy —
/// the directory being looked at is the useful answer instead of a complaint.
#[test]
fn copying_a_group_row_falls_back_to_the_directory() {
    let mut app = app();
    app.settings.top = 1;
    app.selection = 1;
    assert!(app.selected_row().unwrap().is_other());

    press(&mut app, Key::Char('c'));
    carry_out(&mut app);

    let status = app.status.clone().unwrap();
    assert_eq!(status, "copied /", "{status}");
}

#[test]
fn revealing_the_other_row_explains_itself_rather_than_opening_nothing() {
    let mut app = app();
    // Force the synthetic "Other" row to be the selection.
    app.settings.top = 1;
    app.selection = 1;
    assert!(app.selected_row().unwrap().is_other());

    press(&mut app, Key::Char('o'));

    let status = app.status.clone().unwrap();
    assert!(status.contains("group"), "{status}");
}

#[test]
fn revealing_asks_for_the_selected_path() {
    let mut app = app();
    press(&mut app, Key::Char('o'));
    match &app.requests[..] {
        [Request::Show { path, is_dir: true }] => assert_eq!(path.display(), "/Users"),
        other => panic!("expected one request, got {other:?}"),
    }
    carry_out(&mut app);
    assert!(app.status.is_some());
}

#[test]
fn the_ranked_list_always_keeps_a_line() {
    for height in 0..40 {
        let (list, largest) = overview::split_body(&app(), height, 6);
        assert!(list + largest <= height.saturating_sub(6));
        assert!(height <= 6 || list >= 1);
        assert!(largest == 0 || (list == 6 && largest >= 4));
    }
}

#[test]
fn every_shortfall_of_a_scan_is_spelled_out() {
    assert_eq!(overview::incomplete_note(ScanState::Complete), None);
    for state in [
        ScanState::Partial,
        ScanState::Denied,
        ScanState::Cancelled,
        ScanState::Skipped,
    ] {
        assert!(overview::incomplete_note(state).is_some(), "{state:?}");
    }
}

#[test]
fn a_long_deletion_is_listed_in_part_and_counted_whole() {
    let pending = Confirm {
        targets: (0..13)
            .map(|index| Target {
                path: at(&format!("/t/{index}")),
                size: 1000,
                is_dir: index == 0,
            })
            .collect(),
        typed: String::new(),
        nagged: false,
    };
    let lines = confirm::confirmation(&pending, &None, Unit::Decimal, 68);
    let text: Vec<String> = lines.iter().map(|line| line.plain()).collect();
    assert_eq!(text[0], "Permanently delete 13 items, 13 KB");
    assert_eq!(text[2], "  • /t/0/  1 KB");
    assert_eq!(text[11], "  • /t/9  1 KB");
    assert_eq!(text[12], "  … and 3 more");
    assert_eq!(
        text.last().unwrap(),
        " Type delete to confirm: ▏  Esc to cancel"
    );
    assert_eq!(lines[0].room_beside(40), 40 - text[0].chars().count());
}

#[test]
fn the_selected_row_stays_in_a_short_legend() {
    let mut app = app();
    app.view = View::Explorer;
    for selection in 0..6 {
        app.selection = selection;
        let legend = explorer::legend(&app, 34, 3);
        assert_eq!(legend.len(), 3);
        let chosen: Vec<&Line> = legend
            .iter()
            .filter(|line| line.spans[1].tone == Tone::Selected)
            .collect();
        assert_eq!(chosen.len(), 1);
    }
}

#[test]
fn hints_take_no_more_than_their_room() {
    for view in [View::Overview, View::Explorer, View::Picker, View::Scanning] {
        let mut seen = 0;
        for budget in 8..120 {
            let line = footer::hint_spans(view, budget).plain();
            assert!(line.chars().count() <= budget, "{line:?} at {budget}");
            assert!(line.ends_with("quit") || line.ends_with("back") || line.ends_with("stop"));
            assert!(line.chars().count() >= seen, "a wider footer shows no less");
            seen = line.chars().count();
        }
    }
}

#[test]
fn a_bounded_change_says_it_was_under_the_floor() {
    let before = dir("/", 10 * GB, vec![]);
    let after = dir("/", 30 * GB, vec![dir("/fresh", 20 * GB, vec![])]);
    let mut app = app();
    app.diff = Some(disko::diff::diff(
        &before,
        &after,
        SizeKind::Allocated,
        NOW - 86_400,
        NOW,
        1_000_000,
    ));
    app.tree = Some(after);
    let facts = details::details(&app, &nowhere(), NOW);
    let was = facts.iter().find(|fact| fact.label == "Was").unwrap();
    assert_eq!(was.value, "under 1 MB");
    let change = facts.iter().find(|fact| fact.label.starts_with("Change"));
    assert_eq!(change.unwrap().value, "+20 GB");
}

#[test]
fn moving_into_a_folder_leaves_the_capacity_as_it_is() {
    let mut app = app();
    let before = render_lines(&mut app, 100, 30).unwrap();
    app.open_selected();
    let after = render_lines(&mut app, 100, 30).unwrap();
    let capacity = |lines: &[String]| lines.iter().find(|l| l.contains("used of")).cloned();
    let folder = |lines: &[String]| lines.iter().find(|l| l.contains("Current folder")).cloned();
    assert!(capacity(&before).is_some());
    assert_eq!(capacity(&before), capacity(&after));
    assert_ne!(folder(&before), folder(&after));

    // And another volume under the same folder changes only what is said of the volume.
    app.filesystem.as_mut().unwrap().used = 1_000_000_000;
    let other = render_lines(&mut app, 100, 30).unwrap();
    assert_ne!(capacity(&after), capacity(&other));
    assert_eq!(folder(&after), folder(&other));
}

#[test]
fn the_floor_that_is_told_is_the_snapshots_own() {
    let before = dir("/", 10 * GB, vec![]);
    let after = dir("/", 30 * GB, vec![dir("/fresh", 20 * GB, vec![])]);
    let mut app = app();
    app.diff = Some(disko::diff::diff(
        &before,
        &after,
        SizeKind::Apparent,
        NOW - 86_400,
        NOW,
        50_000_000,
    ));
    app.tree = Some(after);
    let facts = details::details(&app, &nowhere(), NOW);
    let was = facts.iter().find(|fact| fact.label == "Was").unwrap();
    assert_eq!(was.value, "under 50 MB");
}
