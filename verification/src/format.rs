//! Text for the terminal: colour, sizes for people to read, aligned tables.

use crate::text::{
    decimal, lemma_utf8_concat, lemma_without_after_plain, lemma_without_before_marker,
    lemma_without_short, push_decimal, remove_all, without,
};
use std::collections::HashMap;
use vstd::arithmetic::div_mod::{lemma_div_nonincreasing, lemma_mod_bound};
use vstd::prelude::*;
use vstd::std_specs::hash::*;
use vstd::string::*;
use vstd::utf8::{encode_utf8, is_ascii_chars_encode_utf8};

verus! {

/// The escape sequence that turns the text after it blue and bold.
pub const ESCAPE_BLUE_BOLD: &'static str = "\x1b[34;1m";

/// The escape sequence that ends colour and weight.
pub const ESCAPE_RESET: &'static str = "\x1b[0m";

/// The number of bytes in a kibibyte.
pub const KB_IN_BYTES: u64 = 1024;

/// The number of bytes in a mebibyte.
pub const MB_IN_BYTES: u64 = 1048576;

/// The number of bytes in a gibibyte.
pub const GB_IN_BYTES: u64 = 1073741824;

/// The number of bytes in a tebibyte.
pub const TB_IN_BYTES: u64 = 1099511627776;

/// `s` between the sequence that starts blue and bold and the one that resets.
pub open spec fn blue_bold_text(s: Seq<char>) -> Seq<char> {
    ESCAPE_BLUE_BOLD@ + s + ESCAPE_RESET@
}

/// Wraps `str` so that a terminal shows it blue and bold. On the terminal it
/// is as wide as before.
pub fn blue_bold(str: &String) -> (wrapped: String)
    ensures
        wrapped@ == blue_bold_text(str@),
        visible_length(wrapped@) == visible_length(str@),
{
    let mut wrapped = String::new();
    wrapped.append(ESCAPE_BLUE_BOLD);
    wrapped.append(str.as_str());
    wrapped.append(ESCAPE_RESET);
    proof {
        lemma_blue_bold_keeps_visible_length(str@);
    }
    wrapped
}

/// `bytes` in tenths of `unit`, rounded to the nearest tenth; a value half way
/// between two tenths goes to the even one.
pub open spec fn tenths(bytes: nat, unit: nat) -> nat {
    let whole = bytes * 10 / unit;
    let rest = bytes * 10 % unit;
    if 2 * rest > unit || (2 * rest == unit && whole % 2 == 1) {
        whole + 1
    } else {
        whole
    }
}

/// `bytes` in units of `unit` with one decimal place, followed by `label`.
pub open spec fn scaled_size(bytes: nat, unit: nat, label: Seq<char>) -> Seq<char> {
    decimal(tenths(bytes, unit) / 10) + "."@ + decimal(tenths(bytes, unit) % 10) + label
}

/// A size as people read it: in kibibytes, mebibytes or gibibytes with one
/// decimal place, and as a plain number of bytes below a kibibyte and from a
/// tebibyte on.
pub open spec fn human_readable(bytes: nat) -> Seq<char> {
    if KB_IN_BYTES <= bytes < MB_IN_BYTES {
        scaled_size(bytes, KB_IN_BYTES as nat, "K"@)
    } else if MB_IN_BYTES <= bytes < GB_IN_BYTES {
        scaled_size(bytes, MB_IN_BYTES as nat, "M"@)
    } else if GB_IN_BYTES <= bytes < TB_IN_BYTES {
        scaled_size(bytes, GB_IN_BYTES as nat, "G"@)
    } else {
        decimal(bytes)
    }
}

/// Appends to `out` a size in units of `unit` with one decimal place and `label`.
fn push_scaled(out: &mut String, bytes: u64, unit: u64, label: &str)
    requires
        0 < unit,
        bytes < TB_IN_BYTES,
    ensures
        final(out)@ == old(out)@ + scaled_size(bytes as nat, unit as nat, label@),
{
    let scaled: u64 = bytes * 10;
    proof {
        lemma_div_nonincreasing(scaled as int, unit as int);
        lemma_mod_bound(scaled as int, unit as int);
    }
    let whole: u64 = scaled / unit;
    let rest: u64 = scaled % unit;
    let rounded: u64 = if rest > unit - rest || (rest == unit - rest && whole % 2 == 1) {
        whole + 1
    } else {
        whole
    };
    push_decimal(out, (rounded / 10) as u128);
    out.append(".");
    push_decimal(out, (rounded % 10) as u128);
    out.append(label);
}

/// Writes a size in bytes as people read it.
pub fn bytes_to_human_readable(bytes: u64) -> (text: String)
    ensures
        text@ == human_readable(bytes as nat),
{
    let mut text = String::new();
    if KB_IN_BYTES <= bytes && bytes < MB_IN_BYTES {
        push_scaled(&mut text, bytes, KB_IN_BYTES, "K");
    } else if MB_IN_BYTES <= bytes && bytes < GB_IN_BYTES {
        push_scaled(&mut text, bytes, MB_IN_BYTES, "M");
    } else if GB_IN_BYTES <= bytes && bytes < TB_IN_BYTES {
        push_scaled(&mut text, bytes, GB_IN_BYTES, "G");
    } else {
        push_decimal(&mut text, bytes as u128);
    }
    text
}

/// What is left of a text's bytes when the sequence that starts blue and bold
/// has been taken out, and then the one that resets.
pub open spec fn visible_bytes(bytes: Seq<u8>) -> Seq<u8> {
    without(without(bytes, encode_utf8(ESCAPE_BLUE_BOLD@)), encode_utf8(ESCAPE_RESET@))
}

/// The width of a text on the terminal: the number of bytes of its UTF-8 form,
/// the two escape sequences not counted. No other escape sequence is known.
pub open spec fn visible_length(s: Seq<char>) -> nat {
    visible_bytes(encode_utf8(s)).len()
}

/// The width of `str` on the terminal.
pub fn unescaped_length(str: &str) -> (length: usize)
    ensures
        length == visible_length(str@),
{
    let plain = remove_all(str.as_bytes(), ESCAPE_BLUE_BOLD.as_bytes());
    let visible = remove_all(plain.as_slice(), ESCAPE_RESET.as_bytes());
    visible.len()
}

/// `n` blanks.
pub open spec fn spaces(n: nat) -> Seq<char> {
    Seq::new(n, |i: int| ' ')
}

/// The number of blanks that bring `s` to `width`: none where it is as wide or wider.
pub open spec fn padding(s: Seq<char>, width: nat) -> nat {
    if visible_length(s) >= width {
        0
    } else {
        (width - visible_length(s)) as nat
    }
}

/// `s` with blanks after it up to `width`.
pub open spec fn padded_right(s: Seq<char>, width: nat) -> Seq<char> {
    s + spaces(padding(s, width))
}

/// `s` with blanks before it up to `width`.
pub open spec fn padded_left(s: Seq<char>, width: nat) -> Seq<char> {
    spaces(padding(s, width)) + s
}

/// Appends `count` blanks to `out`.
fn push_spaces(out: &mut String, count: usize)
    ensures
        final(out)@ == old(out)@ + spaces(count as nat),
{
    let mut i: usize = 0;
    while i < count
        invariant
            i <= count,
            out@ == old(out)@ + spaces(i as nat),
        decreases count - i,
    {
        proof {
            reveal_strlit(" ");
        }
        out.append(" ");
        i += 1;
    }
}

/// Fills `input` up to `length` with blanks after it. A text that is as wide
/// or wider comes back as it is.
pub fn pad_right(input: String, length: &usize) -> (padded: String)
    ensures
        padded@ == padded_right(input@, *length as nat),
        visible_length(padded@) == visible_length(input@) + padding(input@, *length as nat),
{
    proof {
        lemma_visible_length_spaces_after(input@, padding(input@, *length as nat));
    }
    let mut padded_string = input;
    let visible = unescaped_length(padded_string.as_str());
    if visible >= *length {
        return padded_string;
    }
    let spaces_to_add = *length - visible;
    push_spaces(&mut padded_string, spaces_to_add);
    padded_string
}

/// Fills `input` up to `length` with blanks before it. A text that is as wide
/// or wider comes back as it is.
pub fn pad_left(input: String, length: &usize) -> (padded: String)
    ensures
        padded@ == padded_left(input@, *length as nat),
        visible_length(padded@) == visible_length(input@) + padding(input@, *length as nat),
{
    proof {
        lemma_visible_length_spaces_before(padding(input@, *length as nat), input@);
    }
    let visible = unescaped_length(input.as_str());
    if visible >= *length {
        return input;
    }
    let spaces_to_add = *length - visible;
    let mut padded_string = String::new();
    push_spaces(&mut padded_string, spaces_to_add);
    padded_string.append(input.as_str());
    padded_string
}

/// Where the cells of a table stand in their columns.
#[derive(Clone, Copy, PartialEq, Eq, Debug)]
pub enum TableAlignment {
    /// Every cell at the left of its column.
    Left,
    /// Every cell at the right of its column.
    Right,
    /// Every cell at the right of its column, but those of the last column at its left.
    RightLastLeft,
}

/// The message with which a table is refused whose rows differ in length.
pub const UNEVEN_ROWS: &'static str = "All rows must have the same number of columns";

/// Whether every row of `grid` has `columns` cells.
pub open spec fn rows_have(grid: Seq<Seq<Seq<char>>>, columns: nat) -> bool {
    forall|r: int| 0 <= r < grid.len() ==> (#[trigger] grid[r]).len() == columns
}

/// Whether the rows of `grid` are all of one length.
pub open spec fn uniform(grid: Seq<Seq<Seq<char>>>) -> bool {
    grid.len() > 0 ==> rows_have(grid, grid[0].len())
}

/// The width of column `column`: the greatest width of a cell that a row has
/// there, and 0 if no row is that long.
pub open spec fn column_width(grid: Seq<Seq<Seq<char>>>, column: int) -> nat
    decreases grid.len(),
{
    if grid.len() == 0 {
        0
    } else {
        let above = column_width(grid.drop_last(), column);
        let row = grid.last();
        if 0 <= column < row.len() && visible_length(row[column]) > above {
            visible_length(row[column])
        } else {
            above
        }
    }
}

/// A cell as the table shows it in a column of `width`; `last` says whether the
/// column is the table's last.
pub open spec fn aligned_cell(
    cell: Seq<char>,
    width: nat,
    align: TableAlignment,
    last: bool,
) -> Seq<char> {
    match align {
        TableAlignment::Left => padded_right(cell, width),
        TableAlignment::Right => padded_left(cell, width),
        TableAlignment::RightLastLeft => if last {
            padded_right(cell, width)
        } else {
            padded_left(cell, width)
        },
    }
}

/// The texts of `parts` in a row, with `separator` between each two.
pub open spec fn join(parts: Seq<Seq<char>>, separator: Seq<char>) -> Seq<char>
    decreases parts.len(),
{
    if parts.len() == 0 {
        Seq::empty()
    } else if parts.len() == 1 {
        parts[0]
    } else {
        join(parts.drop_last(), separator) + separator + parts.last()
    }
}

/// The cells of row `r` of `grid` as the table shows them.
pub open spec fn aligned_row(grid: Seq<Seq<Seq<char>>>, r: int, align: TableAlignment) -> Seq<
    Seq<char>,
> {
    Seq::new(
        grid[r].len(),
        |c: int| aligned_cell(grid[r][c], column_width(grid, c), align, c == grid[0].len() - 1),
    )
}

/// The lines of the table, one for each row: its cells with a blank between each two.
pub open spec fn table_lines(grid: Seq<Seq<Seq<char>>>, align: TableAlignment) -> Seq<Seq<char>> {
    Seq::new(grid.len(), |r: int| join(aligned_row(grid, r, align), " "@))
}

/// The table as one text: its lines with a line feed between each two.
pub open spec fn table_text(grid: Seq<Seq<Seq<char>>>, align: TableAlignment) -> Seq<char> {
    join(table_lines(grid, align), "\n"@)
}

/// Checks that every row has `num_cols` cells.
pub fn validate_table_equality(input_data: &Vec<Vec<String>>, num_cols: usize) -> (checked: Result<
    (),
    &'static str,
>)
    ensures
        checked is Ok <==> rows_have(input_data.deep_view(), num_cols as nat),
        checked is Err ==> checked->Err_0@ == UNEVEN_ROWS@,
{
    let ghost grid = input_data.deep_view();
    let mut r: usize = 0;
    while r < input_data.len()
        invariant
            r <= input_data@.len(),
            grid == input_data.deep_view(),
            forall|i: int| 0 <= i < r ==> (#[trigger] grid[i]).len() == num_cols,
        decreases input_data@.len() - r,
    {
        if input_data[r].len() != num_cols {
            assert(grid[r as int].len() == input_data@[r as int]@.len());
            return Err(UNEVEN_ROWS);
        }
        r += 1;
    }
    Ok(())
}

/// The width of a column is that of its widest cell: no cell is wider.
pub proof fn lemma_column_width_bounds(grid: Seq<Seq<Seq<char>>>, r: int, column: int)
    requires
        0 <= r < grid.len(),
        0 <= column < grid[r].len(),
    ensures
        visible_length(grid[r][column]) <= column_width(grid, column),
    decreases grid.len(),
{
    if r < grid.len() - 1 {
        lemma_column_width_bounds(grid.drop_last(), r, column);
    }
}

/// The widest cell of each column that has a cell wider than nothing: the map
/// holds a column's number exactly if its width is not 0, and gives that width.
pub fn col_max_size_map(input_data: &[Vec<String>]) -> (widths: HashMap<usize, usize>)
    ensures
        forall|c: usize| #[trigger]
            widths@.contains_key(c) <==> column_width(input_data.deep_view(), c as int) > 0,
        forall|c: usize| #[trigger]
            widths@.contains_key(c) ==> widths@[c] == column_width(
                input_data.deep_view(),
                c as int,
            ),
{
    broadcast use group_hash_axioms;

    let ghost grid = input_data.deep_view();
    let mut widths: HashMap<usize, usize> = HashMap::new();
    let mut r: usize = 0;
    while r < input_data.len()
        invariant
            r <= input_data@.len(),
            grid == input_data.deep_view(),
            forall|c: usize| #[trigger]
                widths@.contains_key(c) <==> column_width(grid.take(r as int), c as int) > 0,
            forall|c: usize| #[trigger]
                widths@.contains_key(c) ==> widths@[c] == column_width(
                    grid.take(r as int),
                    c as int,
                ),
        decreases input_data@.len() - r,
    {
        let row = &input_data[r];
        let ghost above = grid.take(r as int);
        let ghost with_row = grid.take(r + 1);
        let mut c: usize = 0;
        while c < row.len()
            invariant
                c <= row@.len(),
                r < input_data@.len(),
                grid == input_data.deep_view(),
                row == &input_data@[r as int],
                above == grid.take(r as int),
                with_row == grid.take(r + 1),
                with_row.drop_last() == above,
                with_row.last() == grid[r as int],
                grid[r as int].len() == row@.len(),
                forall|k: usize| #[trigger]
                    widths@.contains_key(k) <==> column_width(
                        if k < c {
                            with_row
                        } else {
                            above
                        },
                        k as int,
                    ) > 0,
                forall|k: usize| #[trigger]
                    widths@.contains_key(k) ==> widths@[k] == column_width(
                        if k < c {
                            with_row
                        } else {
                            above
                        },
                        k as int,
                    ),
            decreases row@.len() - c,
        {
            let length = unescaped_length(row[c].as_str());
            let current_max: usize = match widths.get(&c) {
                Some(width) => *width,
                None => 0,
            };
            if length > current_max {
                widths.insert(c, length);
            }
            c += 1;
        }
        r += 1;
    }
    assert(grid.take(r as int) =~= grid);
    widths
}

/// One part more: the text so far, the separator if anything stands before
/// it, and the part.
proof fn lemma_join_next(parts: Seq<Seq<char>>, separator: Seq<char>, k: int)
    requires
        0 <= k < parts.len(),
    ensures
        join(parts.take(k + 1), separator) == if k == 0 {
            parts[k]
        } else {
            join(parts.take(k), separator) + separator + parts[k]
        },
{
    assert(parts.take(k + 1).drop_last() =~= parts.take(k));
}

/// Puts texts in a row, with `separator` between each two.
pub fn join_strings(parts: &Vec<String>, separator: &str) -> (joined: String)
    ensures
        joined@ == join(parts.deep_view(), separator@),
{
    let ghost texts = parts.deep_view();
    let mut joined = String::new();
    let mut i: usize = 0;
    while i < parts.len()
        invariant
            i <= parts@.len(),
            texts == parts.deep_view(),
            joined@ == join(texts.take(i as int), separator@),
        decreases parts@.len() - i,
    {
        if i > 0 {
            joined.append(separator);
        }
        joined.append(parts[i].as_str());
        proof {
            lemma_join_next(texts, separator@, i as int);
        }
        i += 1;
    }
    assert(texts.take(i as int) =~= texts);
    joined
}

/// The line of row `r`: its cells, each in its column's width, with a blank
/// between each two.
fn table_line(
    input_data: &Vec<Vec<String>>,
    r: usize,
    widths: &HashMap<usize, usize>,
    align: TableAlignment,
) -> (line: String)
    requires
        r < input_data@.len(),
        input_data@[0]@.len() > 0 || input_data@[r as int]@.len() == 0,
        forall|c: usize| #[trigger]
            widths@.contains_key(c) <==> column_width(input_data.deep_view(), c as int) > 0,
        forall|c: usize| #[trigger]
            widths@.contains_key(c) ==> widths@[c] == column_width(
                input_data.deep_view(),
                c as int,
            ),
    ensures
        line@ == join(aligned_row(input_data.deep_view(), r as int, align), " "@),
{
    broadcast use group_hash_axioms;

    let ghost grid = input_data.deep_view();
    let ghost cells = aligned_row(grid, r as int, align);
    let row = &input_data[r];
    let num_cols = input_data[0].len();
    let mut line = String::new();
    let mut c: usize = 0;
    while c < row.len()
        invariant
            c <= row@.len(),
            r < input_data@.len(),
            row == &input_data@[r as int],
            grid == input_data.deep_view(),
            cells == aligned_row(grid, r as int, align),
            cells.len() == row@.len(),
            num_cols == grid[0].len(),
            num_cols > 0 || row@.len() == 0,
            line@ == join(cells.take(c as int), " "@),
            forall|k: usize| #[trigger]
                widths@.contains_key(k) <==> column_width(grid, k as int) > 0,
            forall|k: usize| #[trigger]
                widths@.contains_key(k) ==> widths@[k] == column_width(grid, k as int),
        decreases row@.len() - c,
    {
        if c > 0 {
            line.append(" ");
        }
        let col = &row[c];
        let cell = match widths.get(&c) {
            Some(max_length) => match align {
                TableAlignment::Left => pad_right(col.clone(), max_length),
                TableAlignment::Right => pad_left(col.clone(), max_length),
                TableAlignment::RightLastLeft => {
                    if c == num_cols - 1 {
                        pad_right(col.clone(), max_length)
                    } else {
                        pad_left(col.clone(), max_length)
                    }
                },
            },
            None => {
                col.clone()
            },
        };
        line.append(cell.as_str());
        proof {
            lemma_join_next(cells, " "@, c as int);
        }
        c += 1;
    }
    assert(cells.take(c as int) =~= cells);
    line
}

/// Draws rows of cells as a table: each cell filled with blanks to the width of
/// its column, the cells of a row put together with a blank between each two,
/// the rows with a line feed. Rows that differ in length are refused; a table
/// without rows is the empty text.
pub fn table(input_data: Vec<Vec<String>>, align: TableAlignment) -> (drawn: Result<
    String,
    &'static str,
>)
    ensures
        drawn is Ok <==> uniform(input_data.deep_view()),
        drawn is Ok ==> drawn->Ok_0@ == table_text(input_data.deep_view(), align),
        drawn is Err ==> drawn->Err_0@ == UNEVEN_ROWS@,
{
    let ghost grid = input_data.deep_view();
    let ghost lines = table_lines(grid, align);
    let mut output_string = String::new();
    if input_data.len() == 0 {
        return Ok(output_string);
    }
    let num_cols = input_data[0].len();
    match validate_table_equality(&input_data, num_cols) {
        Err(message) => {
            return Err(message);
        },
        Ok(_) => {},
    }
    let rows = input_data.as_slice();
    let col_max_size_map = col_max_size_map(rows);
    let mut r: usize = 0;
    while r < input_data.len()
        invariant
            r <= input_data@.len(),
            grid == input_data.deep_view(),
            lines == table_lines(grid, align),
            lines.len() == input_data@.len(),
            rows_have(grid, grid[0].len()),
            input_data@.len() > 0,
            output_string@ == join(lines.take(r as int), "\n"@),
            forall|c: usize| #[trigger]
                col_max_size_map@.contains_key(c) <==> column_width(grid, c as int) > 0,
            forall|c: usize| #[trigger]
                col_max_size_map@.contains_key(c) ==> col_max_size_map@[c] == column_width(
                    grid,
                    c as int,
                ),
        decreases input_data@.len() - r,
    {
        if r > 0 {
            output_string.append("\n");
        }
        assert(grid[r as int].len() == input_data@[r as int]@.len());
        let line = table_line(&input_data, r, &col_max_size_map, align);
        output_string.append(line.as_str());
        proof {
            lemma_join_next(lines, "\n"@, r as int);
        }
        r += 1;
    }
    assert(lines.take(r as int) =~= lines);
    Ok(output_string)
}

/// The bytes of the two escape sequences.
proof fn lemma_escape_bytes()
    ensures
        encode_utf8(ESCAPE_BLUE_BOLD@) == seq![0x1bu8, 0x5b, 0x33, 0x34, 0x3b, 0x31, 0x6d],
        encode_utf8(ESCAPE_RESET@) == seq![0x1bu8, 0x5b, 0x30, 0x6d],
{
    reveal_strlit("\x1b[34;1m");
    reveal_strlit("\x1b[0m");
    let blue = ESCAPE_BLUE_BOLD@;
    let reset = ESCAPE_RESET@;
    is_ascii_chars_encode_utf8(blue);
    is_ascii_chars_encode_utf8(reset);
}

/// The bytes of `n` blanks.
proof fn lemma_space_bytes(n: nat)
    ensures
        encode_utf8(spaces(n)) == Seq::new(n, |i: int| 0x20u8),
{
    is_ascii_chars_encode_utf8(spaces(n));
}

/// Colour does not count: a text in blue and bold is as wide as the text itself.
pub proof fn lemma_blue_bold_keeps_visible_length(s: Seq<char>)
    ensures
        visible_length(blue_bold_text(s)) == visible_length(s),
{
    lemma_escape_bytes();
    let blue = encode_utf8(ESCAPE_BLUE_BOLD@);
    let reset = encode_utf8(ESCAPE_RESET@);
    let inner = encode_utf8(s);
    lemma_utf8_concat(ESCAPE_BLUE_BOLD@ + s, ESCAPE_RESET@);
    lemma_utf8_concat(ESCAPE_BLUE_BOLD@, s);
    let whole = blue + inner + reset;
    // The first search takes the sequence from the front. After that it finds
    // what it finds in `s` alone: nothing reaches into the reset, which begins
    // with the escape byte, and the reset is too short to hold the sequence.
    assert(whole.take(blue.len() as int) =~= blue);
    assert(whole.skip(blue.len() as int) =~= inner + reset);
    lemma_without_before_marker(inner, reset, blue);
    lemma_without_short(reset, blue);
    // The second search, too, finds in what is left of `s` what it finds there
    // alone, and then the reset at the end.
    let plain = without(inner, blue);
    lemma_without_before_marker(plain, reset, reset);
    assert(reset.take(reset.len() as int) =~= reset);
    assert(reset.skip(reset.len() as int) =~= Seq::<u8>::empty());
    assert(without(Seq::<u8>::empty(), reset) == Seq::<u8>::empty());
}

/// Blanks before a text count one each.
pub proof fn lemma_visible_length_spaces_before(n: nat, s: Seq<char>)
    ensures
        visible_length(spaces(n) + s) == n + visible_length(s),
{
    lemma_escape_bytes();
    lemma_space_bytes(n);
    lemma_utf8_concat(spaces(n), s);
    let blue = encode_utf8(ESCAPE_BLUE_BOLD@);
    let reset = encode_utf8(ESCAPE_RESET@);
    let blanks = encode_utf8(spaces(n));
    let inner = encode_utf8(s);
    lemma_without_after_plain(blanks, inner, blue);
    lemma_without_after_plain(blanks, without(inner, blue), reset);
}

/// Blanks after a text count one each.
pub proof fn lemma_visible_length_spaces_after(s: Seq<char>, n: nat)
    ensures
        visible_length(s + spaces(n)) == visible_length(s) + n,
{
    lemma_escape_bytes();
    lemma_space_bytes(n);
    lemma_utf8_concat(s, spaces(n));
    let blue = encode_utf8(ESCAPE_BLUE_BOLD@);
    let reset = encode_utf8(ESCAPE_RESET@);
    let blanks = encode_utf8(spaces(n));
    let inner = encode_utf8(s);
    if n == 0 {
    } else {
        let none = Seq::<u8>::empty();
        lemma_without_before_marker(inner, blanks, blue);
        lemma_without_after_plain(blanks, none, blue);
        lemma_without_before_marker(without(inner, blue), blanks, reset);
        lemma_without_after_plain(blanks, none, reset);
    }
}

/// Every cell of a table is shown in the width of its column. With
/// `RightLastLeft`, a cell before the last column stands at the right of its
/// column, after the blanks that fill it; a cell of the last column stands at
/// the left, and blanks follow it only where it is narrower than its column.
pub proof fn lemma_cells_fill_their_columns(
    grid: Seq<Seq<Seq<char>>>,
    align: TableAlignment,
    r: int,
    c: int,
)
    requires
        uniform(grid),
        0 <= r < grid.len(),
        0 <= c < grid[r].len(),
    ensures
        ({
            let cell = grid[r][c];
            let width = column_width(grid, c);
            let shown = aligned_row(grid, r, align)[c];
            let blanks = spaces((width - visible_length(cell)) as nat);
            &&& visible_length(cell) <= width
            &&& visible_length(shown) == width
            &&& align == TableAlignment::RightLastLeft && c < grid[r].len() - 1 ==> shown == blanks
                + cell
            &&& align == TableAlignment::RightLastLeft && c == grid[r].len() - 1 ==> shown == cell
                + blanks
            &&& visible_length(cell) == width ==> shown == cell
        }),
{
    let cell = grid[r][c];
    let width = column_width(grid, c);
    lemma_column_width_bounds(grid, r, c);
    let n = (width - visible_length(cell)) as nat;
    lemma_visible_length_spaces_before(n, cell);
    lemma_visible_length_spaces_after(cell, n);
}

} // verus!
