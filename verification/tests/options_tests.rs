use rsls::options::{belongs, get_dir_entries, listing_names, Options, RSSort};

fn no_options() -> Options {
    Options {
        is_show_all: false,
        is_show_almost_all: false,
        is_one_line: false,
        is_long_output: false,
        is_numeric_uid_gid: false,
        is_human_readable: false,
        is_group_directories_first: false,
        is_ignore_backups: false,
        is_sort_by_time: false,
        is_sort_by_size: false,
        is_sort_by_extension: false,
        is_sort_reverse: false,
        is_show_size_blocks: false,
        is_access_time: false,
        is_show_inode: false,
        is_kibibytes: false,
        is_comma_separated: false,
    }
}

fn names(list: &[&str]) -> Vec<String> {
    list.iter().map(|name| name.to_string()).collect()
}

#[test]
fn sort_is_by_name_where_nothing_is_asked() {
    assert!(matches!(RSSort::from_options(&no_options()), RSSort::Default));
}

#[test]
fn sort_by_each_switch_alone() {
    let mut options = no_options();
    options.is_group_directories_first = true;
    assert!(matches!(RSSort::from_options(&options), RSSort::Directory));
    let mut options = no_options();
    options.is_sort_by_size = true;
    assert!(matches!(RSSort::from_options(&options), RSSort::Size));
    let mut options = no_options();
    options.is_sort_by_time = true;
    assert!(matches!(RSSort::from_options(&options), RSSort::Time));
    let mut options = no_options();
    options.is_sort_by_extension = true;
    assert!(matches!(RSSort::from_options(&options), RSSort::Extension));
}

#[test]
fn sort_by_access_time_needs_three_switches() {
    let mut options = no_options();
    options.is_sort_by_time = true;
    options.is_access_time = true;
    assert!(matches!(RSSort::from_options(&options), RSSort::Time));
    options.is_long_output = true;
    assert!(matches!(RSSort::from_options(&options), RSSort::AccessTime));
    options.is_sort_by_time = false;
    assert!(matches!(RSSort::from_options(&options), RSSort::Default));
}

#[test]
fn sort_precedence() {
    let mut options = no_options();
    options.is_sort_by_extension = true;
    options.is_sort_by_time = true;
    assert!(matches!(RSSort::from_options(&options), RSSort::Time));
    options.is_access_time = true;
    options.is_long_output = true;
    assert!(matches!(RSSort::from_options(&options), RSSort::AccessTime));
    options.is_sort_by_size = true;
    assert!(matches!(RSSort::from_options(&options), RSSort::Size));
    options.is_group_directories_first = true;
    assert!(matches!(RSSort::from_options(&options), RSSort::Directory));
}

#[test]
fn hidden_names_are_left_out() {
    let options = no_options();
    assert!(belongs("a.txt", &options));
    assert!(!belongs(".profile", &options));
    assert!(!belongs(".", &options));
    assert!(belongs("", &options));
    assert!(belongs("a.", &options));
}

#[test]
fn hidden_names_are_kept_where_asked() {
    let mut options = no_options();
    options.is_show_all = true;
    assert!(belongs(".profile", &options));
    let mut options = no_options();
    options.is_show_almost_all = true;
    assert!(belongs(".profile", &options));
}

#[test]
fn backups_are_left_out_where_asked() {
    let mut options = no_options();
    assert!(belongs("notes~", &options));
    options.is_ignore_backups = true;
    assert!(!belongs("notes~", &options));
    assert!(!belongs("~", &options));
    assert!(belongs("~notes", &options));
    assert!(belongs("notes", &options));
    options.is_show_all = true;
    assert!(!belongs(".notes~", &options));
    assert!(belongs(".notes", &options));
}

#[test]
fn get_dir_entries_keeps_the_order() {
    let found = names(&["b.txt", ".hidden", "a.txt", "old~", "dir1"]);
    assert_eq!(
        get_dir_entries(found.clone(), &no_options()),
        names(&["b.txt", "a.txt", "old~", "dir1"])
    );
    let mut options = no_options();
    options.is_ignore_backups = true;
    options.is_show_almost_all = true;
    assert_eq!(
        get_dir_entries(found, &options),
        names(&["b.txt", ".hidden", "a.txt", "dir1"])
    );
    assert_eq!(get_dir_entries(Vec::new(), &options), names(&[]));
}

#[test]
fn listing_names_adds_the_directory_and_the_one_above() {
    let found = names(&["b.txt", ".hidden", "a.txt"]);
    let mut options = no_options();
    options.is_show_all = true;
    assert_eq!(
        listing_names(found.clone(), &options),
        names(&["b.txt", ".hidden", "a.txt", ".", ".."])
    );
    let mut options = no_options();
    options.is_show_almost_all = true;
    assert_eq!(
        listing_names(found.clone(), &options),
        names(&["b.txt", ".hidden", "a.txt"])
    );
    assert_eq!(listing_names(found, &no_options()), names(&["b.txt", "a.txt"]));
}
