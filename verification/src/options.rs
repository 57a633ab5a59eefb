//! What a listing is asked to show, and the order that follows from it.

use vstd::prelude::*;
use vstd::utf8::encode_utf8;

verus! {

/// The name of the directory itself.
pub const CURRENT_DIR: &'static str = ".";

/// The name of the directory above.
pub const PARENT_DIR: &'static str = "..";

/// The byte with which the name of a hidden entry begins.
pub const HIDDEN_MARK: u8 = 46;

/// The byte with which the name of a backup ends.
pub const BACKUP_MARK: u8 = 126;

/// The switches of a listing.
#[derive(Clone, Copy, Debug)]
pub struct Options {
    /// Hidden entries are shown, and the directory itself and the one above it.
    pub is_show_all: bool,
    /// Hidden entries are shown.
    pub is_show_almost_all: bool,
    /// One entry on each line.
    pub is_one_line: bool,
    /// One entry on each line, with permissions, owner, size and date.
    pub is_long_output: bool,
    /// As the long form, with owner and group as numbers.
    pub is_numeric_uid_gid: bool,
    /// Sizes with a unit, as people read them.
    pub is_human_readable: bool,
    /// Directories come first.
    pub is_group_directories_first: bool,
    /// Entries whose name ends in `~` are left out.
    pub is_ignore_backups: bool,
    /// Newest first.
    pub is_sort_by_time: bool,
    /// Largest first.
    pub is_sort_by_size: bool,
    /// By extension.
    pub is_sort_by_extension: bool,
    /// The order turned round.
    pub is_sort_reverse: bool,
    /// The number of blocks of each entry is shown.
    pub is_show_size_blocks: bool,
    /// The time of last access stands for the time of last change.
    pub is_access_time: bool,
    /// The index number of each entry is shown.
    pub is_show_inode: bool,
    /// Blocks are counted in units of 1024 bytes.
    pub is_kibibytes: bool,
    /// The names in one line, with commas between them.
    pub is_comma_separated: bool,
}

/// The criterion by which a listing is ordered.
#[derive(Clone, Copy, Debug)]
pub enum RSSort {
    /// By the time of last change, newest first.
    Time,
    /// By the time of last access, newest first.
    AccessTime,
    /// By size, largest first.
    Size,
    /// Directories before the rest.
    Directory,
    /// By extension; entries without one come last.
    Extension,
    /// By name.
    Default,
}

/// The one criterion that the switches ask for. Where several are set, directories
/// first wins over size, size over time, and time over extension; the time is that
/// of last access only in the long form and where asked for.
pub open spec fn sort_of(options: Options) -> RSSort {
    if options.is_group_directories_first {
        RSSort::Directory
    } else if options.is_sort_by_size {
        RSSort::Size
    } else if options.is_access_time && options.is_long_output && options.is_sort_by_time {
        RSSort::AccessTime
    } else if options.is_sort_by_time {
        RSSort::Time
    } else if options.is_sort_by_extension {
        RSSort::Extension
    } else {
        RSSort::Default
    }
}

impl RSSort {
    /// Picks the criterion that the switches ask for.
    pub fn from_options(options: &Options) -> (kind: RSSort)
        ensures
            kind == sort_of(*options),
    {
        if options.is_group_directories_first {
            RSSort::Directory
        } else if options.is_sort_by_size {
            RSSort::Size
        } else if options.is_access_time && options.is_long_output && options.is_sort_by_time {
            RSSort::AccessTime
        } else if options.is_sort_by_time {
            RSSort::Time
        } else if options.is_sort_by_extension {
            RSSort::Extension
        } else {
            RSSort::Default
        }
    }
}

/// Whether a name is that of a hidden entry: it begins with a dot.
pub open spec fn is_hidden(name: Seq<char>) -> bool {
    encode_utf8(name).len() > 0 && encode_utf8(name)[0] == HIDDEN_MARK
}

/// Whether a name is that of a backup: it ends in `~`.
pub open spec fn is_backup(name: Seq<char>) -> bool {
    encode_utf8(name).len() > 0 && encode_utf8(name).last() == BACKUP_MARK
}

/// Whether an entry of this name belongs to the listing.
pub open spec fn is_listed(name: Seq<char>, options: Options) -> bool {
    (options.is_show_all || options.is_show_almost_all || !is_hidden(name)) && !(
    options.is_ignore_backups && is_backup(name))
}

/// The names of `names` that belong to the listing, in their order.
pub open spec fn listed(names: Seq<Seq<char>>, options: Options) -> Seq<Seq<char>>
    decreases names.len(),
{
    if names.len() == 0 {
        Seq::empty()
    } else if is_listed(names.last(), options) {
        listed(names.drop_last(), options).push(names.last())
    } else {
        listed(names.drop_last(), options)
    }
}

/// The names that a listing of a directory holds, given all the names found in
/// it: those that belong to it, and behind them, where everything is shown, the
/// directory itself and the one above it.
pub open spec fn names_to_list(found: Seq<Seq<char>>, options: Options) -> Seq<Seq<char>> {
    if options.is_show_all {
        listed(found, options).push(CURRENT_DIR@).push(PARENT_DIR@)
    } else {
        listed(found, options)
    }
}

/// Tells whether an entry of this name belongs to the listing.
pub fn belongs(name: &str, options: &Options) -> (wanted: bool)
    ensures
        wanted == is_listed(name@, *options),
{
    let bytes = name.as_bytes();
    let hidden = bytes.len() > 0 && bytes[0] == HIDDEN_MARK;
    let backup = bytes.len() > 0 && bytes[bytes.len() - 1] == BACKUP_MARK;
    (options.is_show_all || options.is_show_almost_all || !hidden) && !(options.is_ignore_backups
        && backup)
}

/// Picks from the names found in a directory those that belong to the listing.
pub fn get_dir_entries(found: Vec<String>, options: &Options) -> (names: Vec<String>)
    ensures
        names.deep_view() == listed(found.deep_view(), *options),
{
    let ghost all = found.deep_view();
    let mut names: Vec<String> = Vec::new();
    let mut i: usize = 0;
    while i < found.len()
        invariant
            i <= found@.len(),
            all == found.deep_view(),
            names.deep_view() == listed(all.take(i as int), *options),
        decreases found@.len() - i,
    {
        assert(all.take(i + 1).drop_last() =~= all.take(i as int));
        if belongs(found[i].as_str(), options) {
            names.push(found[i].clone());
        }
        i += 1;
    }
    assert(all.take(i as int) =~= all);
    names
}

/// The names that a listing holds, given all the names found in the directory.
pub fn listing_names(found: Vec<String>, options: &Options) -> (names: Vec<String>)
    ensures
        names.deep_view() == names_to_list(found.deep_view(), *options),
{
    let mut names = get_dir_entries(found, options);
    if options.is_show_all {
        names.push(CURRENT_DIR.to_owned());
        names.push(PARENT_DIR.to_owned());
    }
    names
}

} // verus!
