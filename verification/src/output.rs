//! Non-interactive output: the `--plain`, `--filesystems`, `--inodes` and `--details` modes.

use vstd::prelude::*;
use crate::model;
use crate::model::{Row, RowOptions};
use crate::mounts;
use crate::mounts::{Filesystem, Volume};
use crate::path;
use crate::path::FilePath;
use crate::size;
use crate::size::{format_percent, format_percent_whole, Unit};
use crate::strings;
use crate::tree::DiskEntry;

verus! {

/// One line of a plain listing: `bytes  human  share  path`, separated by tabs.
pub open spec fn plain_line(line: model::Line, root: Seq<u8>, unit: Unit) -> Seq<char> {
    strings::digits(line.size as nat) + "\t"@ + size::formatted(line.size as nat, unit) + "\t"@
        + size::percent_text(line.fraction) + "\t"@ + match line.path {
        Some(at) => path::shown(at),
        None => path::shown(root) + " (other)"@,
    } + "\n"@
}

/// One line after the other.
pub open spec fn plain_lines(lines: Seq<model::Line>, root: Seq<u8>, unit: Unit) -> Seq<char>
    decreases lines.len(),
{
    if lines.len() == 0 {
        Seq::empty()
    } else {
        plain_lines(lines.drop_last(), root, unit) + plain_line(lines.last(), root, unit)
    }
}

fn entry_line(row: &Row, root_path: &FilePath, unit: Unit) -> (out: String)
    requires
        row.fraction.valid(),
    ensures
        out@ == plain_line(row@, root_path@, unit),
{
    let place = match &row.path {
        Some(path) => path.display(),
        None => {
            let mut place = root_path.display();
            place.append(" (other)");
            place
        },
    };
    let mut out = strings::decimal(row.size);
    out.append("\t");
    out.append(size::format(row.size, unit).as_str());
    out.append("\t");
    out.append(format_percent(row.fraction).as_str());
    out.append("\t");
    out.append(place.as_str());
    out.append("\n");
    out
}

/// Tab-separated `bytes  human  share  path`, one line per entry.
///
/// Bytes come first and raw so `cut -f1` and `sort -n` work; the human column is there for the
/// times a person reads it too.
pub fn scan_plain(
    root_path: &FilePath,
    root: &DiskEntry,
    options: &RowOptions,
    unit: Unit,
) -> (out: String)
    ensures
        out@ == plain_lines(model::rows_of(root@, root_path@, options@), root_path@, unit),
{
    let rows = model::rows(root_path, root, options);
    let ghost all = model::lines(rows@);
    let mut out = String::new();
    let mut at: usize = 0;
    assert(out@ =~= Seq::empty());
    while at < rows.len()
        invariant
            at <= rows@.len(),
            all == model::lines(rows@),
            model::rows_valid(rows@),
            out@ == plain_lines(all.take(at as int), root_path@, unit),
        decreases rows@.len() - at,
    {
        let row = &rows[at];
        proof {
            let upto = all.take(at as int + 1);
            assert(upto.drop_last() =~= all.take(at as int));
            assert(upto.last() == row@);
        }
        out.append(entry_line(row, root_path, unit).as_str());
        at += 1;
    }
    assert(all.take(at as int) =~= all);
    out
}

/// Digits with a comma before every three from the end.
pub open spec fn separated(digits: Seq<char>) -> Seq<char>
    decreases digits.len(),
{
    if digits.len() <= 3 {
        digits
    } else {
        separated(digits.take(digits.len() - 3)) + ","@ + digits.skip(digits.len() - 3)
    }
}

fn separate(digits: &Vec<char>, end: usize) -> (out: String)
    requires
        end <= digits@.len(),
    ensures
        out@ == separated(digits@.take(end as int)),
    decreases end,
{
    let ghost upto = digits@.take(end as int);
    if end <= 3 {
        let out = strings::spell(digits, 0, end);
        assert(out@ =~= upto);
        return out;
    }
    let mut out = separate(digits, end - 3);
    out.append(",");
    let last = strings::spell(digits, end - 3, end);
    out.append(last.as_str());
    assert(upto.take(end - 3) =~= digits@.take(end - 3));
    assert(upto.skip(end - 3) =~= last@);
    out
}

/// `1448344` is `1,448,344`. Inode counts are unreadable without separators.
pub fn count(value: u64) -> (text: String)
    ensures
        text@ == separated(strings::digits(value as nat)),
{
    let text = strings::decimal(value);
    let digits = strings::letters(text.as_str());
    assert(digits@.take(digits@.len() as int) =~= digits@);
    separate(&digits, digits.len())
}

#[derive(Copy, Clone, Debug, PartialEq, Eq, Structural)]
pub enum Align {
    Left,
    Right,
}

/// A minimal column-aligned table. Alignment is declared per column rather than inferred from
/// position: a mount path in the middle of a row still needs to hang left.
#[derive(Debug)]
pub struct Table {
    pub columns: Vec<(String, Align)>,
    pub rows: Vec<Vec<String>>,
}

/// A table as a value.
#[verifier::ext_equal]
pub struct Sheet {
    pub columns: Seq<(Seq<char>, Align)>,
    pub rows: Seq<Seq<Seq<char>>>,
}

/// The headers of some columns, each with the side it hangs on.
pub open spec fn headings(columns: Seq<(String, Align)>) -> Seq<(Seq<char>, Align)> {
    columns.map_values(|column: (String, Align)| (column.0@, column.1))
}

/// The same, of columns named by literals.
pub open spec fn titles(columns: Seq<(&'static str, Align)>) -> Seq<(Seq<char>, Align)> {
    columns.map_values(|column: (&'static str, Align)| (column.0@, column.1))
}

/// The cells of some rows.
pub open spec fn grid(rows: Seq<Vec<String>>) -> Seq<Seq<Seq<char>>> {
    rows.map_values(|row: Vec<String>| strings::texts(row@))
}

impl View for Table {
    type V = Sheet;

    open spec fn view(&self) -> Sheet {
        Sheet { columns: headings(self.columns@), rows: grid(self.rows@) }
    }
}

/// How wide a column's cells are at most, among some rows.
pub open spec fn widest(rows: Seq<Seq<Seq<char>>>, column: int, least: nat) -> nat
    decreases rows.len(),
{
    if rows.len() == 0 {
        least
    } else {
        let rest = widest(rows.drop_last(), column, least);
        if column < rows.last().len() && rows.last()[column].len() > rest {
            rows.last()[column].len()
        } else {
            rest
        }
    }
}

/// How wide a column is: as wide as its header and its widest cell.
pub open spec fn column_width(sheet: Sheet, column: int) -> nat {
    widest(sheet.rows, column, sheet.columns[column].0.len())
}

/// One cell, filled up on the side it does not hang on.
pub open spec fn cell_text(sheet: Sheet, cell: Seq<char>, column: int) -> Seq<char> {
    match sheet.columns[column].1 {
        Align::Right => strings::right_aligned(cell, column_width(sheet, column) as int),
        Align::Left => strings::left_aligned(cell, column_width(sheet, column) as int),
    }
}

/// The first cells of a row, side by side.
pub open spec fn cells_text(sheet: Sheet, cells: Seq<Seq<char>>, count: nat) -> Seq<char>
    decreases count,
{
    if count == 0 {
        Seq::empty()
    } else if count == 1 {
        cell_text(sheet, cells[0], 0)
    } else {
        cells_text(sheet, cells, (count - 1) as nat) + "  "@ + cell_text(
            sheet,
            cells[count - 1],
            count - 1,
        )
    }
}

/// One row of a table, without blanks at its end.
pub open spec fn row_text(sheet: Sheet, cells: Seq<Seq<char>>) -> Seq<char> {
    strings::trim_end(cells_text(sheet, cells, cells.len())) + "\n"@
}

/// The first rows of a table under its headers.
pub open spec fn rows_text(sheet: Sheet, count: nat) -> Seq<char>
    decreases count,
{
    if count == 0 {
        row_text(sheet, sheet.columns.map_values(|column: (Seq<char>, Align)| column.0))
    } else {
        rows_text(sheet, (count - 1) as nat) + row_text(sheet, sheet.rows[count - 1])
    }
}

/// A whole table.
pub open spec fn table_text(sheet: Sheet) -> Seq<char> {
    rows_text(sheet, sheet.rows.len())
}

impl Table {
    /// Whether no row has more cells than there are columns.
    pub open spec fn valid(&self) -> bool {
        forall|i: int|
            0 <= i < self.rows@.len() ==> (#[trigger] self.rows@[i])@.len() <= self.columns@.len()
    }

    pub fn new(columns: &[(&'static str, Align)]) -> (table: Table)
        ensures
            table@ == (Sheet { columns: titles(columns@), rows: Seq::empty() }),
            table.valid(),
            table.columns@.len() == columns@.len(),
            table.rows@.len() == 0,
    {
        let mut named: Vec<(String, Align)> = Vec::new();
        let mut at: usize = 0;
        while at < columns.len()
            invariant
                at <= columns@.len(),
                named@.len() == at,
                headings(named@) == titles(columns@).take(at as int),
            decreases columns@.len() - at,
        {
            let ghost before = named@;
            named.push((String::from_str(columns[at].0), columns[at].1));
            proof {
                assert(headings(named@) =~= headings(before).push(titles(columns@)[at as int]));
                assert(titles(columns@).take(at as int + 1) =~= titles(columns@).take(
                    at as int,
                ).push(titles(columns@)[at as int]));
            }
            at += 1;
        }
        assert(titles(columns@).take(at as int) =~= titles(columns@));
        let table = Table { columns: named, rows: Vec::new() };
        assert(grid(table.rows@) =~= Seq::empty());
        table
    }

    pub fn push(&mut self, row: Vec<String>)
        requires
            old(self).valid(),
            row@.len() <= old(self).columns@.len(),
        ensures
            final(self).valid(),
            final(self)@ == (Sheet {
                columns: old(self)@.columns,
                rows: old(self)@.rows.push(strings::texts(row@)),
            }),
            final(self).columns@.len() == old(self).columns@.len(),
            final(self).rows@.len() == old(self).rows@.len() + 1,
    {
        let ghost before = self.rows@;
        self.rows.push(row);
        assert(grid(self.rows@) =~= grid(before).push(strings::texts(row@)));
    }

    fn width_of(&self, column: usize) -> (out: usize)
        requires
            column < self.columns@.len(),
        ensures
            out == column_width(self@, column as int),
    {
        let mut out: usize = self.columns[column].0.as_str().unicode_len();
        let ghost least = self@.columns[column as int].0.len();
        let ghost all = self@.rows;
        let mut at: usize = 0;
        while at < self.rows.len()
            invariant
                at <= self.rows@.len(),
                all == grid(self.rows@),
                out == widest(all.take(at as int), column as int, least),
            decreases self.rows@.len() - at,
        {
            proof {
                let upto = all.take(at as int + 1);
                assert(upto.drop_last() =~= all.take(at as int));
                assert(upto.last() == strings::texts(self.rows@[at as int]@));
            }
            if column < self.rows[at].len() {
                let length: usize = self.rows[at][column].as_str().unicode_len();
                if length > out {
                    out = length;
                }
            }
            at += 1;
        }
        assert(all.take(at as int) =~= all);
        out
    }

    fn line(&self, cells: &Vec<String>, widths: &Vec<usize>) -> (out: String)
        requires
            cells@.len() <= self.columns@.len() == widths@.len(),
            forall|i: int|
                0 <= i < widths@.len() ==> (#[trigger] widths@[i]) == column_width(self@, i),
        ensures
            out@ == row_text(self@, strings::texts(cells@)),
    {
        let ghost all = strings::texts(cells@);
        let mut line = String::new();
        let mut column: usize = 0;
        assert(line@ =~= Seq::empty());
        while column < cells.len()
            invariant
                column <= cells@.len() <= self.columns@.len() == widths@.len(),
                all == strings::texts(cells@),
                forall|i: int|
                    0 <= i < widths@.len() ==> (#[trigger] widths@[i]) == column_width(self@, i),
                line@ == cells_text(self@, all, column as nat),
            decreases cells@.len() - column,
        {
            let ghost before = line@;
            if column > 0 {
                line.append("  ");
            }
            let cell = cells[column].as_str();
            let width: usize = widths[column];
            let text = match self.columns[column].1 {
                Align::Right => strings::align_right(cell, width),
                Align::Left => strings::align_left(cell, width),
            };
            line.append(text.as_str());
            proof {
                assert(all[column as int] == cell@);
                assert(self@.columns[column as int].1 == self.columns@[column as int].1);
                assert(text@ == cell_text(self@, all[column as int], column as int));
                if column == 0 {
                    assert(line@ =~= text@);
                }
            }
            column += 1;
        }
        let mut out = strings::trim_tail(line.as_str());
        out.append("\n");
        out
    }

    /// The whole table, as text.
    pub fn write(&self) -> (out: String)
        requires
            self.valid(),
        ensures
            out@ == table_text(self@),
    {
        let mut widths: Vec<usize> = Vec::new();
        let mut headers: Vec<String> = Vec::new();
        let mut column: usize = 0;
        let ghost names = self@.columns.map_values(|column: (Seq<char>, Align)| column.0);
        while column < self.columns.len()
            invariant
                column <= self.columns@.len(),
                widths@.len() == column,
                headers@.len() == column,
                names == self@.columns.map_values(|column: (Seq<char>, Align)| column.0),
                forall|i: int|
                    0 <= i < widths@.len() ==> (#[trigger] widths@[i]) == column_width(self@, i),
                forall|i: int| 0 <= i < headers@.len() ==> (#[trigger] headers@[i])@ == names[i],
            decreases self.columns@.len() - column,
        {
            widths.push(self.width_of(column));
            headers.push(String::from_str(self.columns[column].0.as_str()));
            column += 1;
        }
        assert(strings::texts(headers@) =~= names);
        let mut out = self.line(&headers, &widths);
        let mut at: usize = 0;
        while at < self.rows.len()
            invariant
                at <= self.rows@.len(),
                self.valid(),
                widths@.len() == self.columns@.len(),
                forall|i: int|
                    0 <= i < widths@.len() ==> (#[trigger] widths@[i]) == column_width(self@, i),
                out@ == rows_text(self@, at as nat),
            decreases self.rows@.len() - at,
        {
            let line = self.line(&self.rows[at], &widths);
            out.append(line.as_str());
            assert(self@.rows[at as int] == strings::texts(self.rows@[at as int]@));
            at += 1;
        }
        out
    }
}

/// `yes` or `no`.
pub open spec fn yes_no(value: bool) -> Seq<char> {
    if value {
        "yes"@
    } else {
        "no"@
    }
}

pub(crate) fn answer(value: bool) -> (text: String)
    ensures
        text@ == yes_no(value),
{
    if value {
        String::from_str("yes")
    } else {
        String::from_str("no")
    }
}

/// The columns of the filesystem table.
pub open spec fn filesystem_columns(details: bool) -> Seq<(Seq<char>, Align)> {
    let plain = seq![
        ("NAME"@, Align::Left),
        ("SIZE"@, Align::Right),
        ("USED"@, Align::Right),
        ("FREE"@, Align::Right),
        ("USE%"@, Align::Right),
        ("MOUNTED ON"@, Align::Left),
    ];
    if details {
        plain + seq![("DEVICE"@, Align::Left), ("TYPE"@, Align::Left), ("RO"@, Align::Left)]
    } else {
        plain
    }
}

/// One filesystem's row.
pub open spec fn filesystem_cells(fs: Volume, unit: Unit, details: bool) -> Seq<Seq<char>> {
    let plain = seq![
        fs.name,
        size::formatted(fs.total as nat, unit),
        size::formatted(fs.used as nat, unit),
        size::formatted(fs.available as nat, unit),
        size::whole_percent_text(size::share(fs.used as nat, fs.total as nat)),
        path::shown(fs.mount_point),
    ];
    if details {
        plain + seq![fs.device, fs.fs_type, yes_no(fs.read_only)]
    } else {
        plain
    }
}

/// The table of filesystems.
pub open spec fn filesystems_text(list: Seq<Volume>, unit: Unit, details: bool) -> Seq<char> {
    if list.len() == 0 {
        "no filesystems found\n"@
    } else {
        table_text(
            Sheet {
                columns: filesystem_columns(details),
                rows: list.map_values(|fs: Volume| filesystem_cells(fs, unit, details)),
            },
        )
    }
}

/// The default `--plain` filesystem table: names and sizes, nothing else.
pub fn filesystems_plain(filesystems: &Vec<Filesystem>, unit: Unit, details: bool) -> (out: String)
    ensures
        out@ == filesystems_text(mounts::volumes(filesystems@), unit, details),
{
    if filesystems.len() == 0 {
        return String::from_str("no filesystems found\n");
    }
    let ghost all = mounts::volumes(filesystems@);
    let ghost cells = |fs: Volume| filesystem_cells(fs, unit, details);
    let mut table = if details {
        let columns: [(&'static str, Align); 9] = [
            ("NAME", Align::Left),
            ("SIZE", Align::Right),
            ("USED", Align::Right),
            ("FREE", Align::Right),
            ("USE%", Align::Right),
            ("MOUNTED ON", Align::Left),
            ("DEVICE", Align::Left),
            ("TYPE", Align::Left),
            ("RO", Align::Left),
        ];
        let table = Table::new(&columns);
        assert(table@.columns =~= filesystem_columns(true));
        table
    } else {
        let columns: [(&'static str, Align); 6] = [
            ("NAME", Align::Left),
            ("SIZE", Align::Right),
            ("USED", Align::Right),
            ("FREE", Align::Right),
            ("USE%", Align::Right),
            ("MOUNTED ON", Align::Left),
        ];
        let table = Table::new(&columns);
        assert(table@.columns =~= filesystem_columns(false));
        table
    };
    let mut at: usize = 0;
    assert(table@.rows =~= all.take(0).map_values(cells));
    while at < filesystems.len()
        invariant
            at <= filesystems@.len(),
            all == mounts::volumes(filesystems@),
            cells == |fs: Volume| filesystem_cells(fs, unit, details),
            table.valid(),
            table.columns@.len() == if details {
                9int
            } else {
                6
            },
            table@.columns == filesystem_columns(details),
            table@.rows == all.take(at as int).map_values(cells),
        decreases filesystems@.len() - at,
    {
        let fs = &filesystems[at];
        let mut row: Vec<String> = Vec::new();
        row.push(String::from_str(fs.name.as_str()));
        row.push(size::format(fs.total, unit));
        row.push(size::format(fs.used, unit));
        row.push(size::format(fs.available, unit));
        row.push(format_percent_whole(fs.used_fraction()));
        row.push(fs.mount_point.display());
        if details {
            row.push(String::from_str(fs.device.as_str()));
            row.push(String::from_str(fs.fs_type.as_str()));
            row.push(answer(fs.read_only));
        }
        proof {
            assert(all[at as int] == fs@);
            assert(strings::texts(row@) =~= filesystem_cells(fs@, unit, details));
            assert(all.take(at as int + 1).map_values(cells) =~= all.take(at as int).map_values(
                cells,
            ).push(filesystem_cells(fs@, unit, details)));
        }
        table.push(row);
        at += 1;
    }
    assert(all.take(at as int) =~= all);
    table.write()
}

/// The columns of the inode table.
pub open spec fn inode_columns() -> Seq<(Seq<char>, Align)> {
    seq![
        ("NAME"@, Align::Left),
        ("INODES"@, Align::Right),
        ("USED"@, Align::Right),
        ("FREE"@, Align::Right),
        ("USE%"@, Align::Right),
        ("MOUNTED ON"@, Align::Left),
    ]
}

/// One filesystem's inode row.
pub open spec fn inode_cells(fs: Volume) -> Seq<Seq<char>> {
    seq![
        fs.name,
        separated(strings::digits(fs.inodes->0.total as nat)),
        separated(strings::digits(fs.inodes->0.used as nat)),
        separated(strings::digits(fs.inodes->0.free as nat)),
        size::whole_percent_text(
            size::share(fs.inodes->0.used as nat, fs.inodes->0.total as nat),
        ),
        path::shown(fs.mount_point),
    ]
}

/// The filesystems that report inodes.
pub open spec fn with_inodes(list: Seq<Volume>) -> Seq<Volume> {
    list.filter(|fs: Volume| fs.inodes is Some)
}

/// The table of inodes.
pub open spec fn inodes_text(list: Seq<Volume>) -> Seq<char> {
    if with_inodes(list).len() == 0 {
        "no filesystem reported inode counts\n"@
    } else {
        table_text(
            Sheet {
                columns: inode_columns(),
                rows: with_inodes(list).map_values(|fs: Volume| inode_cells(fs)),
            },
        )
    }
}

/// Inode usage, of the filesystems that report it.
pub fn inodes_plain(filesystems: &Vec<Filesystem>) -> (out: String)
    ensures
        out@ == inodes_text(mounts::volumes(filesystems@)),
{
    let ghost all = mounts::volumes(filesystems@);
    let ghost wanted = |fs: Volume| fs.inodes is Some;
    let ghost cells = |fs: Volume| inode_cells(fs);
    let columns: [(&'static str, Align); 6] = [
        ("NAME", Align::Left),
        ("INODES", Align::Right),
        ("USED", Align::Right),
        ("FREE", Align::Right),
        ("USE%", Align::Right),
        ("MOUNTED ON", Align::Left),
    ];
    let mut table = Table::new(&columns);
    assert(table@.columns =~= inode_columns());
    let mut at: usize = 0;
    proof {
        reveal(Seq::filter);
        assert(all.take(0).filter(wanted).map_values(cells) =~= Seq::empty());
    }
    while at < filesystems.len()
        invariant
            at <= filesystems@.len(),
            all == mounts::volumes(filesystems@),
            wanted == |fs: Volume| fs.inodes is Some,
            cells == |fs: Volume| inode_cells(fs),
            table.valid(),
            table.columns@.len() == 6,
            table@.columns == inode_columns(),
            table@.rows == all.take(at as int).filter(wanted).map_values(cells),
        decreases filesystems@.len() - at,
    {
        let fs = &filesystems[at];
        proof {
            assert(all[at as int] == fs@);
            assert(all.take(at as int + 1) =~= all.take(at as int).push(fs@));
            all.take(at as int).lemma_filter_push(fs@, wanted);
        }
        if let Some(inodes) = &fs.inodes {
            let mut row: Vec<String> = Vec::new();
            row.push(String::from_str(fs.name.as_str()));
            row.push(count(inodes.total));
            row.push(count(inodes.used));
            row.push(count(inodes.free));
            row.push(format_percent_whole(inodes.used_fraction()));
            row.push(fs.mount_point.display());
            proof {
                assert(strings::texts(row@) =~= inode_cells(fs@));
                let kept = all.take(at as int).filter(wanted);
                assert(kept.push(fs@).map_values(cells) =~= kept.map_values(cells).push(
                    inode_cells(fs@),
                ));
            }
            table.push(row);
        }
        at += 1;
    }
    assert(all.take(at as int) =~= all);
    if table.rows.len() == 0 {
        assert(table@.rows.len() == 0);
        return String::from_str("no filesystem reported inode counts\n");
    }
    assert(table@.rows.len() == table.rows@.len());
    table.write()
}

/// A label and what it labels, on a line.
pub open spec fn labelled(label: Seq<char>, value: Seq<char>) -> Seq<char> {
    strings::left_aligned(label, 12) + " "@ + value + "\n"@
}

/// So much used of so much, with the share.
pub open spec fn used_of(used: Seq<char>, total: Seq<char>, share: Seq<char>) -> Seq<char> {
    used + " used of "@ + total + " ("@ + share + ")"@
}

/// The details of a filesystem, a line each.
pub open spec fn details_text(fs: Volume, unit: Unit) -> Seq<char> {
    labelled("Volume"@, fs.name) + labelled("Mount"@, path::shown(fs.mount_point)) + labelled(
        "Device"@,
        fs.device,
    ) + labelled("Filesystem"@, fs.fs_type) + labelled("Read-only"@, yes_no(fs.read_only))
        + labelled("Removable"@, yes_no(fs.removable)) + labelled("Kind"@, fs.kind) + labelled(
        "Capacity"@,
        used_of(
            size::formatted(fs.used as nat, unit),
            size::formatted(fs.total as nat, unit),
            size::whole_percent_text(size::share(fs.used as nat, fs.total as nat)),
        ),
    ) + labelled("Available"@, size::formatted(fs.available as nat, unit)) + match fs.inodes {
        Some(inodes) => labelled(
            "Inodes"@,
            used_of(
                separated(strings::digits(inodes.used as nat)),
                separated(strings::digits(inodes.total as nat)),
                size::whole_percent_text(size::share(inodes.used as nat, inodes.total as nat)),
            ),
        ),
        None => Seq::empty(),
    }
}

fn push_labelled(out: &mut String, label: &str, value: &str)
    ensures
        final(out)@ == old(out)@ + labelled(label@, value@),
{
    let ghost before = out@;
    out.append(strings::align_left(label, 12).as_str());
    out.append(" ");
    out.append(value);
    out.append("\n");
    assert(out@ =~= before + labelled(label@, value@));
}

fn of_total(used: &str, total: &str, share: &str) -> (text: String)
    ensures
        text@ == used_of(used@, total@, share@),
{
    let mut text = String::from_str(used);
    text.append(" used of ");
    text.append(total);
    text.append(" (");
    text.append(share);
    text.append(")");
    text
}

/// The detail panel `--details` promises when a path was scanned.
pub fn filesystem_details(fs: &Filesystem, unit: Unit) -> (out: String)
    ensures
        out@ == details_text(fs@, unit),
{
    let mut out = String::new();
    push_labelled(&mut out, "Volume", fs.name.as_str());
    assert(out@ =~= labelled("Volume"@, fs@.name));
    push_labelled(&mut out, "Mount", fs.mount_point.display().as_str());
    push_labelled(&mut out, "Device", fs.device.as_str());
    push_labelled(&mut out, "Filesystem", fs.fs_type.as_str());
    push_labelled(&mut out, "Read-only", answer(fs.read_only).as_str());
    push_labelled(&mut out, "Removable", answer(fs.removable).as_str());
    push_labelled(&mut out, "Kind", fs.kind.as_str());
    push_labelled(
        &mut out,
        "Capacity",
        of_total(
            size::format(fs.used, unit).as_str(),
            size::format(fs.total, unit).as_str(),
            format_percent_whole(fs.used_fraction()).as_str(),
        ).as_str(),
    );
    push_labelled(&mut out, "Available", size::format(fs.available, unit).as_str());
    match &fs.inodes {
        Some(inodes) => {
            push_labelled(
                &mut out,
                "Inodes",
                of_total(
                    count(inodes.used).as_str(),
                    count(inodes.total).as_str(),
                    format_percent_whole(inodes.used_fraction()).as_str(),
                ).as_str(),
            );
        },
        None => {
            assert(out@ + Seq::<char>::empty() =~= out@);
        },
    }
    out
}

/// A grouped number keeps its digits, in order.
pub proof fn grouping_keeps_the_digits(digits: Seq<char>)
    requires
        !digits.contains(','),
    ensures
        separated(digits).filter(|letter: char| letter != ',') == digits,
    decreases digits.len(),
{
    let kept = |letter: char| letter != ',';
    if digits.len() <= 3 {
        without_commas(digits);
    } else {
        let head = digits.take(digits.len() - 3);
        let tail = digits.skip(digits.len() - 3);
        assert(!head.contains(',')) by {
            if head.contains(',') {
                let i = choose|i: int| 0 <= i < head.len() && head[i] == ',';
                assert(digits[i] == ',');
            }
        }
        assert(!tail.contains(',')) by {
            if tail.contains(',') {
                let i = choose|i: int| 0 <= i < tail.len() && tail[i] == ',';
                assert(digits[i + digits.len() - 3] == ',');
            }
        }
        grouping_keeps_the_digits(head);
        without_commas(tail);
        reveal_strlit(",");
        let front = separated(head);
        Seq::filter_distributes_over_add(front + ","@, tail, kept);
        Seq::filter_distributes_over_add(front, ","@, kept);
        assert(","@.filter(kept) =~= Seq::empty()) by {
            reveal(Seq::filter);
            assert(","@.drop_last() =~= Seq::empty());
            assert(","@.drop_last().filter(kept) =~= Seq::empty());
        }
        assert(head + Seq::<char>::empty() + tail =~= digits);
        assert(head + Seq::<char>::empty() =~= head);
    }
}

proof fn without_commas(digits: Seq<char>)
    requires
        !digits.contains(','),
    ensures
        digits.filter(|letter: char| letter != ',') == digits,
    decreases digits.len(),
{
    reveal(Seq::filter);
    if digits.len() > 0 {
        let front = digits.drop_last();
        assert(!front.contains(',')) by {
            if front.contains(',') {
                let i = choose|i: int| 0 <= i < front.len() && front[i] == ',';
                assert(digits[i] == ',');
            }
        }
        assert(digits.last() == digits[digits.len() - 1]);
        without_commas(front);
        assert(front.push(digits.last()) =~= digits);
    } else {
        assert(digits =~= Seq::empty());
    }
}

} // verus!
