//! One entry of a listing and the row of fields that shows it.

use crate::format::{blue_bold, blue_bold_text, bytes_to_human_readable, human_readable};
use crate::options::Options;
use crate::text::{decimal, decimal_string};
use crate::time::{date_of, month_text, DateFormat, SimpleDate};
use crate::user::{get_name_from_db, name_in_db};
use vstd::prelude::*;
use vstd::string::*;

verus! {

/// The number of seconds in a day.
pub const SECS_PER_DAY: u64 = 86400;

/// What the file system tells of an entry.
#[derive(Clone, Copy, Debug)]
pub struct FileMetadata {
    /// The entry is a directory.
    pub is_directory: bool,
    /// The entry is a regular file.
    pub is_regular_file: bool,
    /// The entry is a symbolic link.
    pub is_symlink: bool,
    /// Its size in bytes.
    pub size_bytes: u64,
    /// Its mode: the kind of file and, in the last three octal digits, the permissions.
    pub permission_bits: u32,
    /// The number of hard links to it.
    pub hard_link_count: u64,
    /// The number of the user that owns it.
    pub owner_id: u32,
    /// The number of the group that owns it.
    pub group_id: u32,
    /// When it was last changed, in seconds since 1 January 1970.
    pub modified_time: i64,
    /// When it was last read, in seconds since 1 January 1970.
    pub accessed_time: i64,
    /// The number of blocks of 512 bytes that it takes.
    pub block_count: u64,
    /// Its index number.
    pub inode: u64,
}

/// What a listing learns from outside the directory.
#[derive(Debug)]
pub struct Environment {
    /// The listing goes to a terminal, which shows colour.
    pub is_terminal: bool,
    /// Index numbers are shown on this platform.
    pub shows_inode: bool,
    /// The text of the user database, if it could be read.
    pub user_db: Option<String>,
    /// The text of the group database, if it could be read.
    pub group_db: Option<String>,
}

/// One member of a directory.
#[derive(Debug)]
pub struct RSEntry {
    /// The name under which it is listed.
    pub name: String,
    /// Where it is found; never shown.
    pub path: String,
    /// What the file system tells of it, if it could be asked.
    pub metadata: Option<FileMetadata>,
}

/// The text of a database, if there is one.
pub open spec fn text_of(db: Option<String>) -> Option<Seq<char>> {
    match db {
        Some(text) => Some(text@),
        None => None,
    }
}

/// The character for the kind of file.
pub open spec fn kind_char(metadata: FileMetadata) -> char {
    if metadata.is_directory {
        'd'
    } else if metadata.is_regular_file {
        '-'
    } else if metadata.is_symlink {
        'l'
    } else {
        '?'
    }
}

/// The three characters for one octal digit of the permissions. Only the
/// digits 4 to 7 have any: the others leave nothing.
pub open spec fn triad(digit: int) -> Seq<char> {
    if digit == 4 {
        "r--"@
    } else if digit == 5 {
        "r-x"@
    } else if digit == 6 {
        "rw-"@
    } else if digit == 7 {
        "rwx"@
    } else {
        Seq::empty()
    }
}

/// The permissions as text: the kind of file, then what the last three octal
/// digits of the mode stand for, owner first.
pub open spec fn permission_text(metadata: FileMetadata) -> Seq<char> {
    let bits = metadata.permission_bits as int;
    seq![kind_char(metadata)] + triad((bits / 64) % 8) + triad((bits / 8) % 8) + triad(bits % 8)
}

/// The field for the number of blocks, if it is asked for.
pub open spec fn block_fields(metadata: FileMetadata, options: Options) -> Seq<Seq<char>> {
    if options.is_show_size_blocks {
        seq![
            decimal(
                if options.is_kibibytes {
                    (metadata.block_count / 2) as nat
                } else {
                    metadata.block_count as nat
                },
            ),
        ]
    } else {
        Seq::empty()
    }
}

/// The field for the index number, if it is asked for and the platform shows it.
pub open spec fn inode_fields(metadata: FileMetadata, options: Options, env: Environment) -> Seq<
    Seq<char>,
> {
    if options.is_show_inode && env.shows_inode {
        seq![decimal(metadata.inode as nat)]
    } else {
        Seq::empty()
    }
}

/// An owner as shown: the number, or the name that the database gives for it,
/// or a question mark where there is no database.
pub open spec fn owner_text(id: u32, numeric: bool, db: Option<Seq<char>>) -> Seq<char> {
    if numeric {
        decimal(id as nat)
    } else {
        match db {
            Some(text) => name_in_db(text, id),
            None => "?"@,
        }
    }
}

/// The size as shown.
pub open spec fn size_text(metadata: FileMetadata, options: Options) -> Seq<char> {
    if options.is_human_readable {
        human_readable(metadata.size_bytes as nat)
    } else {
        decimal(metadata.size_bytes as nat)
    }
}

/// The time that is shown: of last access where that is asked for, else of
/// last change.
pub open spec fn shown_time(metadata: FileMetadata, options: Options) -> int {
    if options.is_access_time {
        metadata.accessed_time as int
    } else {
        metadata.modified_time as int
    }
}

/// The two fields for a time: the month in three letters and the day of the
/// month. A time before 1970 has no date here, and both its fields are empty.
pub open spec fn date_fields(seconds: int) -> Seq<Seq<char>> {
    if seconds >= 0 {
        let date = date_of(seconds / (SECS_PER_DAY as int));
        seq![month_text(date.1, DateFormat::ShortMonth), decimal(date.2 as nat)]
    } else {
        seq![Seq::empty(), Seq::empty()]
    }
}

/// The fields of the long form: permissions, links, owner, group, size, date.
pub open spec fn long_fields(metadata: FileMetadata, options: Options, env: Environment) -> Seq<
    Seq<char>,
> {
    if options.is_long_output || options.is_numeric_uid_gid {
        seq![
            permission_text(metadata),
            decimal(metadata.hard_link_count as nat),
            owner_text(metadata.owner_id, options.is_numeric_uid_gid, text_of(env.user_db)),
            owner_text(metadata.group_id, options.is_numeric_uid_gid, text_of(env.group_db)),
            size_text(metadata, options),
        ] + date_fields(shown_time(metadata, options))
    } else {
        Seq::empty()
    }
}

/// A name as shown: blue and bold for a directory on a terminal.
pub open spec fn shown_name(
    name: Seq<char>,
    metadata: Option<FileMetadata>,
    is_terminal: bool,
) -> Seq<char> {
    match metadata {
        Some(found) => if found.is_directory && is_terminal {
            blue_bold_text(name)
        } else {
            name
        },
        None => name,
    }
}

/// The row of an entry: blocks, index number, the fields of the long form, each
/// where asked for, and the name. Of an entry without metadata only the name.
pub open spec fn row_of(entry: RSEntry, options: Options, env: Environment) -> Seq<Seq<char>> {
    match entry.metadata {
        Some(metadata) => block_fields(metadata, options) + inode_fields(metadata, options, env)
            + long_fields(metadata, options, env) + seq![
            shown_name(entry.name@, entry.metadata, env.is_terminal),
        ],
        None => seq![entry.name@],
    }
}

/// The number of fields of a row depends on the switches alone, for every
/// entry that has metadata: one for the blocks, one for the index number and
/// seven for the long form, each where asked for, and the name. Whether an
/// owner is found, and when the entry was changed, makes no difference. An
/// entry without metadata has the name alone.
pub proof fn lemma_row_length(entry: RSEntry, options: Options, env: Environment)
    ensures
        row_of(entry, options, env).len() == if entry.metadata is Some {
            (if options.is_show_size_blocks {
                1int
            } else {
                0int
            }) + (if options.is_show_inode && env.shows_inode {
                1int
            } else {
                0int
            }) + (if options.is_long_output || options.is_numeric_uid_gid {
                7int
            } else {
                0int
            }) + 1
        } else {
            1
        },
{
}

/// Appends to `out` what one octal digit of the permissions stands for.
fn push_triad(out: &mut String, digit: u32)
    ensures
        final(out)@ == old(out)@ + triad(digit as int),
{
    if digit == 4 {
        out.append("r--");
    } else if digit == 5 {
        out.append("r-x");
    } else if digit == 6 {
        out.append("rw-");
    } else if digit == 7 {
        out.append("rwx");
    }
}

/// The permissions of `metadata` as text.
fn permission_string(metadata: &FileMetadata) -> (text: String)
    ensures
        text@ == permission_text(*metadata),
{
    proof {
        reveal_strlit("d");
        reveal_strlit("-");
        reveal_strlit("l");
        reveal_strlit("?");
    }
    let mut text = String::new();
    if metadata.is_directory {
        text.append("d");
    } else if metadata.is_regular_file {
        text.append("-");
    } else if metadata.is_symlink {
        text.append("l");
    } else {
        text.append("?");
    }
    let mode = metadata.permission_bits;
    push_triad(&mut text, (mode / 64) % 8);
    push_triad(&mut text, (mode / 8) % 8);
    push_triad(&mut text, mode % 8);
    text
}

/// An owner as shown.
fn owner_field(id: u32, numeric: bool, db: &Option<String>) -> (text: String)
    ensures
        text@ == owner_text(id, numeric, text_of(*db)),
{
    if numeric {
        decimal_string(id as u128)
    } else {
        match db {
            Some(database) => get_name_from_db(id, database.clone()),
            None => "?".to_owned(),
        }
    }
}

/// Appends a field to a row.
fn push_field(row: &mut Vec<String>, field: String)
    ensures
        final(row).deep_view() == old(row).deep_view().push(field@),
{
    row.push(field);
}

/// Appends to a row the fields for a time.
fn push_date_fields(row: &mut Vec<String>, seconds: i64)
    ensures
        final(row).deep_view() == old(row).deep_view() + date_fields(seconds as int),
{
    if seconds >= 0 {
        let days = (seconds as u64) / SECS_PER_DAY;
        let date = SimpleDate::from_days(days);
        push_field(row, date.month_display(DateFormat::ShortMonth));
        push_field(row, date.day());
    } else {
        push_field(row, String::new());
        push_field(row, String::new());
    }
}

/// Appends to a row the field for the number of blocks, if it is asked for.
fn push_block_fields(row: &mut Vec<String>, metadata: &FileMetadata, options: &Options)
    ensures
        final(row).deep_view() == old(row).deep_view() + block_fields(*metadata, *options),
{
    if options.is_show_size_blocks {
        let mut blocks = metadata.block_count;
        if options.is_kibibytes {
            blocks = blocks / 2;
        }
        push_field(row, decimal_string(blocks as u128));
    }
}

/// Appends to a row the field for the index number, if it is shown.
fn push_inode_fields(
    row: &mut Vec<String>,
    metadata: &FileMetadata,
    options: &Options,
    env: &Environment,
)
    ensures
        final(row).deep_view() == old(row).deep_view() + inode_fields(*metadata, *options, *env),
{
    if options.is_show_inode && env.shows_inode {
        push_field(row, decimal_string(metadata.inode as u128));
    }
}

/// Appends to a row the fields of the long form, if it is asked for.
fn push_long_fields(
    row: &mut Vec<String>,
    metadata: &FileMetadata,
    options: &Options,
    env: &Environment,
)
    ensures
        final(row).deep_view() == old(row).deep_view() + long_fields(*metadata, *options, *env),
{
    if options.is_long_output || options.is_numeric_uid_gid {
        push_field(row, permission_string(metadata));
        push_field(row, decimal_string(metadata.hard_link_count as u128));
        push_field(row, owner_field(metadata.owner_id, options.is_numeric_uid_gid, &env.user_db));
        push_field(row, owner_field(metadata.group_id, options.is_numeric_uid_gid, &env.group_db));
        let file_size_string = if options.is_human_readable {
            bytes_to_human_readable(metadata.size_bytes)
        } else {
            decimal_string(metadata.size_bytes as u128)
        };
        push_field(row, file_size_string);
        let time_to_show = if options.is_access_time {
            metadata.accessed_time
        } else {
            metadata.modified_time
        };
        push_date_fields(row, time_to_show);
    }
}

impl RSEntry {
    /// The permissions as text; empty where the entry has no metadata.
    pub fn get_permission_string(&self) -> (text: String)
        ensures
            text@ == match self.metadata {
                Some(metadata) => permission_text(metadata),
                None => Seq::empty(),
            },
    {
        match &self.metadata {
            Some(file_metadata) => permission_string(file_metadata),
            None => String::new(),
        }
    }

    /// The size in bytes; 0 where the entry has no metadata.
    pub fn get_file_size(&self) -> (size: u64)
        ensures
            size == match self.metadata {
                Some(metadata) => metadata.size_bytes,
                None => 0,
            },
    {
        match &self.metadata {
            Some(file_metadata) => file_metadata.size_bytes,
            None => 0,
        }
    }

    /// The size as people read it; empty where the entry has no metadata.
    pub fn get_file_size_human(&self) -> (text: String)
        ensures
            text@ == match self.metadata {
                Some(metadata) => human_readable(metadata.size_bytes as nat),
                None => Seq::empty(),
            },
    {
        match &self.metadata {
            Some(file_metadata) => bytes_to_human_readable(file_metadata.size_bytes),
            None => String::new(),
        }
    }

    /// Tells whether two entries lie at the same path.
    pub fn same_path(&self, other: &RSEntry) -> (same: bool)
        ensures
            same == (self.path@ == other.path@),
    {
        self.path == other.path
    }

    /// The name as shown: blue and bold for a directory on a terminal.
    pub fn display_name(&self, is_terminal: bool) -> (text: String)
        ensures
            text@ == shown_name(self.name@, self.metadata, is_terminal),
    {
        match &self.metadata {
            Some(meta) => {
                if meta.is_directory && is_terminal {
                    blue_bold(&self.name)
                } else {
                    self.name.clone()
                }
            },
            None => self.name.clone(),
        }
    }

    /// The fields that show the entry, in the order of the columns.
    pub fn get_table_row(&self, options: &Options, env: &Environment) -> (row: Vec<String>)
        ensures
            row.deep_view() == row_of(*self, *options, *env),
    {
        let mut string_builder: Vec<String> = Vec::new();
        match &self.metadata {
            Some(file_metadata) => {
                push_block_fields(&mut string_builder, file_metadata, options);
                push_inode_fields(&mut string_builder, file_metadata, options, env);
                push_long_fields(&mut string_builder, file_metadata, options, env);
                push_field(&mut string_builder, self.display_name(env.is_terminal));
            },
            None => {
                push_field(&mut string_builder, self.name.clone());
            },
        }
        string_builder
    }
}

} // verus!
