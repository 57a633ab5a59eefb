//! The text of a listing: the entries in their order, as a table or in one line.

use crate::entries::{
    entries_of, failures_of, get_entries, rows_of, total_blocks, Found, RSEntries,
};
use crate::entry::{Environment, RSEntry};
use crate::format::{
    join, join_strings, table, table_lines, table_text, uniform, TableAlignment,
};
use crate::options::{sort_of, Options, RSSort};
use crate::order::{comparable, ordered, ordered_stepwise};
use crate::text::{decimal, push_decimal};
use vstd::prelude::*;
use vstd::string::*;

verus! {

/// What stands between the entries of a listing in one line.
pub const ENTRY_SPACE: &'static str = "  ";

/// What stands between the names of a listing with commas.
pub const COMMA_SPACE: &'static str = ", ";

/// What begins the line of the total.
pub const TOTAL_LABEL: &'static str = "total ";

/// The message for a directory that cannot be read.
pub open spec fn cannot_access_text(path: Seq<char>, reason: Seq<char>) -> Seq<char> {
    "rs: cannot access '"@ + path + "': "@ + reason
}

/// Writes the message for a directory that cannot be read, for the reason given.
pub fn cannot_access(path: &str, reason: &str) -> (message: String)
    ensures
        message@ == cannot_access_text(path@, reason@),
{
    let mut message = String::new();
    message.append("rs: cannot access '");
    message.append(path);
    message.append("': ");
    message.append(reason);
    message
}

/// The names of the entries, in their order.
pub open spec fn names_of(entries: Seq<RSEntry>) -> Seq<Seq<char>> {
    Seq::new(entries.len(), |i: int| entries[i].name@)
}

/// The fields of all rows, one row after the other.
pub open spec fn all_fields(rows: Seq<Seq<Seq<char>>>) -> Seq<Seq<char>>
    decreases rows.len(),
{
    if rows.len() == 0 {
        Seq::empty()
    } else {
        all_fields(rows.drop_last()) + rows.last()
    }
}

/// The number of fields of the longest row.
pub open spec fn longest(rows: Seq<Seq<Seq<char>>>) -> nat
    decreases rows.len(),
{
    if rows.len() == 0 {
        0
    } else {
        let above = longest(rows.drop_last());
        if rows.last().len() > above {
            rows.last().len()
        } else {
            above
        }
    }
}

/// `count` fields with nothing in them.
pub open spec fn empty_fields(count: nat) -> Seq<Seq<char>> {
    Seq::new(count, |i: int| Seq::<char>::empty())
}

/// A row brought to `width` fields: the fields that it lacks are empty and
/// stand before its last field, which is the name. A row that is as long or
/// longer stays as it is.
pub open spec fn filled_row(row: Seq<Seq<char>>, width: nat) -> Seq<Seq<char>> {
    if row.len() >= width {
        row
    } else if row.len() == 0 {
        empty_fields(width)
    } else {
        row.drop_last() + empty_fields((width - row.len()) as nat) + seq![row.last()]
    }
}

/// The rows, each brought to the length of the longest: so an entry of which
/// less is known than of the others keeps its place in the table, with its
/// name in the column of the names.
pub open spec fn filled_rows(rows: Seq<Seq<Seq<char>>>) -> Seq<Seq<Seq<char>>> {
    Seq::new(rows.len(), |r: int| filled_row(rows[r], longest(rows)))
}

/// The text that shows the entries in the order in which they stand. With one
/// entry on each line, which the long form asks for too, it is the table of
/// their rows, each brought to the length of the longest, and in the long form
/// the line of the total stands above it. Else it is one line: the names with
/// commas, or the fields of all rows with two blanks between each two.
pub open spec fn listing_text(
    entries: Seq<RSEntry>,
    total: nat,
    options: Options,
    env: Environment,
) -> Seq<char> {
    let rows = rows_of(entries, options, env);
    if options.is_one_line || options.is_long_output || options.is_numeric_uid_gid {
        let drawn = table_text(filled_rows(rows), TableAlignment::RightLastLeft);
        if options.is_one_line {
            drawn
        } else {
            TOTAL_LABEL@ + decimal(total) + "\n"@ + drawn
        }
    } else if options.is_comma_separated {
        join(names_of(entries), COMMA_SPACE@)
    } else {
        join(all_fields(rows), ENTRY_SPACE@)
    }
}

/// No row is longer than the longest.
pub proof fn lemma_longest_bounds(rows: Seq<Seq<Seq<char>>>, r: int)
    requires
        0 <= r < rows.len(),
    ensures
        rows[r].len() <= longest(rows),
    decreases rows.len(),
{
    if r < rows.len() - 1 {
        assert(rows.drop_last()[r] == rows[r]);
        lemma_longest_bounds(rows.drop_last(), r);
    }
}

/// Rows brought to the length of the longest are all of that length, so that
/// a table can be drawn of them, whatever the rows were. No field is lost:
/// a row that has fields keeps them in their order, its last field last.
pub proof fn lemma_filled_rows_uniform(rows: Seq<Seq<Seq<char>>>)
    ensures
        uniform(filled_rows(rows)),
        forall|r: int|
            0 <= r < rows.len() ==> (#[trigger] filled_rows(rows)[r]).len() == longest(rows),
        forall|r: int, c: int|
            0 <= r < rows.len() && 0 <= c < rows[r].len() - 1 ==> #[trigger] filled_rows(
                rows,
            )[r][c] == rows[r][c],
        forall|r: int|
            0 <= r < rows.len() && rows[r].len() > 0 ==> (#[trigger] filled_rows(rows)[r]).last()
                == rows[r].last(),
{
    let filled = filled_rows(rows);
    assert forall|r: int| 0 <= r < rows.len() implies (#[trigger] filled[r]).len() == longest(
        rows,
    ) && (rows[r].len() > 0 ==> filled[r].last() == rows[r].last()) && (forall|c: int|
        0 <= c < rows[r].len() - 1 ==> filled[r][c] == rows[r][c]) by {
        lemma_longest_bounds(rows, r);
    }
    if filled.len() > 0 {
        assert(filled[0].len() == longest(rows));
    }
}

/// Whether `shown` is an order in which a listing may show `entries`: it holds
/// the same entries, and it is in the order of `kind`, turned round where
/// `reverse` says so.
pub open spec fn is_listing_order(
    shown: Seq<RSEntry>,
    entries: Seq<RSEntry>,
    kind: RSSort,
    reverse: bool,
) -> bool {
    let sorted = if reverse {
        shown.reverse()
    } else {
        shown
    };
    &&& sorted.to_multiset() == entries.to_multiset()
    &&& ordered_stepwise(sorted, kind)
    &&& comparable(entries, kind) ==> ordered(sorted, kind)
}

/// Gathers the fields of all rows in one list.
fn concat(rows: &Vec<Vec<String>>) -> (fields: Vec<String>)
    ensures
        fields.deep_view() == all_fields(rows.deep_view()),
{
    let ghost grid = rows.deep_view();
    let mut fields: Vec<String> = Vec::new();
    let mut r: usize = 0;
    while r < rows.len()
        invariant
            r <= rows@.len(),
            grid == rows.deep_view(),
            fields.deep_view() == all_fields(grid.take(r as int)),
        decreases rows@.len() - r,
    {
        let row = &rows[r];
        let ghost before = fields.deep_view();
        assert(grid.take(r + 1).drop_last() =~= grid.take(r as int));
        let mut c: usize = 0;
        while c < row.len()
            invariant
                c <= row@.len(),
                r < rows@.len(),
                row == &rows@[r as int],
                grid == rows.deep_view(),
                grid[r as int].len() == row@.len(),
                fields.deep_view() == before + grid[r as int].take(c as int),
            decreases row@.len() - c,
        {
            let ghost so_far = fields.deep_view();
            fields.push(row[c].clone());
            assert(fields.deep_view() =~= so_far.push(row@[c as int]@));
            assert(grid[r as int].take(c + 1) =~= grid[r as int].take(c as int).push(
                grid[r as int][c as int],
            ));
            c += 1;
        }
        r += 1;
    }
    assert(grid.take(r as int) =~= grid);
    fields
}

/// An entry without metadata is listed like the others: the table has a line
/// for every entry, and the line of this one holds its name in the column of
/// the names, behind fields that are empty.
pub proof fn lemma_entry_without_metadata_is_listed(
    entries: Seq<RSEntry>,
    options: Options,
    env: Environment,
    i: int,
)
    requires
        0 <= i < entries.len(),
        entries[i].metadata is None,
    ensures
        ({
            let rows = rows_of(entries, options, env);
            let filled = filled_rows(rows);
            &&& uniform(filled)
            &&& table_lines(filled, TableAlignment::RightLastLeft).len() == entries.len()
            &&& longest(rows) >= 1
            &&& filled[i] == empty_fields((longest(rows) - 1) as nat) + seq![entries[i].name@]
        }),
{
    let rows = rows_of(entries, options, env);
    lemma_filled_rows_uniform(rows);
    lemma_longest_bounds(rows, i);
    assert(rows[i] =~= seq![entries[i].name@]);
    assert(rows[i].drop_last() =~= Seq::<Seq<char>>::empty());
    assert(filled_rows(rows)[i] =~= empty_fields((longest(rows) - 1) as nat) + seq![
        entries[i].name@,
    ]);
}

/// Finds the number of fields of the longest row.
fn longest_row(rows: &Vec<Vec<String>>) -> (width: usize)
    ensures
        width == longest(rows.deep_view()),
{
    let ghost grid = rows.deep_view();
    let mut width: usize = 0;
    let mut r: usize = 0;
    while r < rows.len()
        invariant
            r <= rows@.len(),
            grid == rows.deep_view(),
            width == longest(grid.take(r as int)),
        decreases rows@.len() - r,
    {
        assert(grid.take(r + 1).drop_last() =~= grid.take(r as int));
        assert(grid.take(r + 1).last().len() == rows@[r as int]@.len());
        if rows[r].len() > width {
            width = rows[r].len();
        }
        r += 1;
    }
    assert(grid.take(r as int) =~= grid);
    width
}

/// Brings a row to `width` fields.
fn fill_row(row: &Vec<String>, width: usize) -> (filled: Vec<String>)
    ensures
        filled.deep_view() == filled_row(row.deep_view(), width as nat),
{
    let ghost fields = row.deep_view();
    let length = row.len();
    let lacking: usize = if length >= width {
        0
    } else {
        width - length
    };
    let kept: usize = if length >= width || length == 0 {
        length
    } else {
        length - 1
    };
    let mut filled: Vec<String> = Vec::new();
    let mut c: usize = 0;
    while c < kept
        invariant
            c <= kept <= row@.len(),
            fields == row.deep_view(),
            filled.deep_view() == fields.take(c as int),
        decreases kept - c,
    {
        let ghost so_far = filled.deep_view();
        filled.push(row[c].clone());
        assert(filled.deep_view() =~= so_far.push(row@[c as int]@));
        assert(fields.take(c + 1) =~= fields.take(c as int).push(fields[c as int]));
        c += 1;
    }
    let mut e: usize = 0;
    while e < lacking
        invariant
            e <= lacking,
            filled.deep_view() == fields.take(kept as int) + empty_fields(e as nat),
        decreases lacking - e,
    {
        let ghost so_far = filled.deep_view();
        filled.push(String::new());
        assert(filled.deep_view() =~= so_far.push(Seq::<char>::empty()));
        e += 1;
    }
    if kept < length {
        let ghost so_far = filled.deep_view();
        filled.push(row[kept].clone());
        assert(filled.deep_view() =~= so_far.push(fields.last()));
        assert(fields.take(kept as int) =~= fields.drop_last());
    } else {
        assert(fields.take(kept as int) =~= fields);
    }
    filled
}

/// Brings every row to the length of the longest.
pub fn fill_rows(rows: Vec<Vec<String>>) -> (filled: Vec<Vec<String>>)
    ensures
        filled.deep_view() == filled_rows(rows.deep_view()),
        uniform(filled.deep_view()),
{
    let width = longest_row(&rows);
    let mut filled: Vec<Vec<String>> = Vec::new();
    let mut r: usize = 0;
    while r < rows.len()
        invariant
            r <= rows@.len(),
            width == longest(rows.deep_view()),
            filled@.len() == r,
            forall|k: int|
                0 <= k < r ==> (#[trigger] filled@[k]).deep_view() == filled_row(
                    rows.deep_view()[k],
                    width as nat,
                ),
        decreases rows@.len() - r,
    {
        let row = fill_row(&rows[r], width);
        assert(rows.deep_view()[r as int] == rows@[r as int].deep_view());
        filled.push(row);
        r += 1;
    }
    proof {
        lemma_filled_rows_uniform(rows.deep_view());
    }
    filled
}

impl RSEntries {
    /// The names of the entries, in their order.
    pub fn names(&self) -> (names: Vec<String>)
        ensures
            names.deep_view() == names_of(self.entries@),
    {
        let mut names: Vec<String> = Vec::new();
        let mut i: usize = 0;
        while i < self.entries.len()
            invariant
                i <= self.entries@.len(),
                names@.len() == i,
                forall|k: int| 0 <= k < i ==> (#[trigger] names@[k])@ == self.entries@[k].name@,
            decreases self.entries@.len() - i,
        {
            names.push(self.entries[i].name.clone());
            i += 1;
        }
        names
    }

    /// The text that shows the entries as they stand. There is one for every
    /// list of entries and all switches: an entry without metadata, or without
    /// a date, is no reason to refuse the others.
    pub fn render(&self, options: &Options, env: &Environment) -> (shown: Result<
        String,
        &'static str,
    >)
        ensures
            shown is Ok,
            shown->Ok_0@ == listing_text(self.entries@, self.block_size as nat, *options, *env),
    {
        if options.is_one_line || options.is_long_output || options.is_numeric_uid_gid {
            let rows = fill_rows(self.to_tabular(options, env));
            match table(rows, TableAlignment::RightLastLeft) {
                Ok(drawn) => {
                    if options.is_one_line {
                        Ok(drawn)
                    } else {
                        let mut text = String::new();
                        text.append(TOTAL_LABEL);
                        push_decimal(&mut text, self.block_size);
                        text.append("\n");
                        text.append(drawn.as_str());
                        assert(text@ =~= TOTAL_LABEL@ + decimal(self.block_size as nat) + "\n"@
                            + drawn@);
                        Ok(text)
                    }
                },
                Err(message) => Err(message),
            }
        } else if options.is_comma_separated {
            let names = self.names();
            Ok(join_strings(&names, COMMA_SPACE))
        } else {
            let rows = self.to_tabular(options, env);
            let fields = concat(&rows);
            Ok(join_strings(&fields, ENTRY_SPACE))
        }
    }
}

/// Shows what was found in a directory as the switches ask: gathers the
/// entries, orders them, turns the order round where asked, and writes them
/// out. This never fails: `Ok` comes back for all that may be found and all
/// switches. The text stands for some order that the switches allow. Beside
/// it come the reasons for which entries are listed without metadata.
pub fn process_entries(dir_entries: Vec<Found>, options: &Options, env: &Environment) -> (shown: (
    Result<String, &'static str>,
    Vec<String>,
))
    ensures
        shown.0 is Ok,
        exists|order: Seq<RSEntry>|
            #[trigger] is_listing_order(
                order,
                entries_of(dir_entries@),
                sort_of(*options),
                options.is_sort_reverse,
            ) && shown.0->Ok_0@ == listing_text(
                order,
                total_blocks(entries_of(dir_entries@)),
                *options,
                *env,
            ),
        shown.1.deep_view() == failures_of(dir_entries@),
{
    let (mut rs_entries, failures) = get_entries(dir_entries);
    let sort_type = RSSort::from_options(options);
    rs_entries.sort_by(sort_type);
    let ghost sorted = rs_entries.entries@;
    if options.is_sort_reverse {
        rs_entries.reverse();
        assert(rs_entries.entries@.reverse() =~= sorted);
    }
    let shown = rs_entries.render(options, env);
    assert(is_listing_order(
        rs_entries.entries@,
        entries_of(dir_entries@),
        sort_of(*options),
        options.is_sort_reverse,
    ));
    (shown, failures)
}

} // verus!
