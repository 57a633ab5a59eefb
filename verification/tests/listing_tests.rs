use rsls::entries::{Found, RSEntries};
use rsls::entry::{Environment, FileMetadata, RSEntry};
use rsls::listing::process_entries;
use rsls::options::Options;

fn no_options() -> Options {
    Options {
        is_show_all: false,
        is_show_almost_all: false,
        is_one_line: false,
        is_long_output: false,
        is_numeric_uid_gid: false,
        is_human_readable: false,
        is_group_directories_first: false,
        is_ignore_backups: false,
        is_sort_by_time: false,
        is_sort_by_size: false,
        is_sort_by_extension: false,
        is_sort_reverse: false,
        is_show_size_blocks: false,
        is_access_time: false,
        is_show_inode: false,
        is_kibibytes: false,
        is_comma_separated: false,
    }
}

fn metadata(directory: bool, size: u64, modified: i64) -> FileMetadata {
    FileMetadata {
        is_directory: directory,
        is_regular_file: !directory,
        is_symlink: false,
        size_bytes: size,
        permission_bits: if directory { 0o40755 } else { 0o100644 },
        hard_link_count: if directory { 2 } else { 1 },
        owner_id: 1000,
        group_id: 100,
        modified_time: modified,
        accessed_time: modified + 86400,
        block_count: 4096,
        inode: 7,
    }
}

fn found(name: &str, metadata: Result<FileMetadata, String>) -> Found {
    Found {
        name: name.to_string(),
        path: format!("./{}", name),
        metadata,
    }
}

fn example() -> Vec<Found> {
    vec![
        found("b.txt", Ok(metadata(false, 300, 19723 * 86400))),
        found("a.txt", Ok(metadata(false, 2048, 19692 * 86400))),
        found("dir1", Ok(metadata(true, 4096, 59 * 86400))),
    ]
}

fn environment(is_terminal: bool) -> Environment {
    Environment {
        is_terminal,
        shows_inode: false,
        user_db: Some("alice:x:1000:1000::/home/alice:/bin/sh\n".to_string()),
        group_db: Some("users:x:100:\n".to_string()),
    }
}

#[test]
fn default_listing_is_ordered_by_name() {
    let (text, failures) = process_entries(example(), &no_options(), &environment(false));
    assert_eq!(text, Ok("a.txt  b.txt  dir1".to_string()));
    assert!(failures.is_empty());
}

#[test]
fn default_listing_on_a_terminal_shows_directories_in_colour() {
    let (text, _) = process_entries(example(), &no_options(), &environment(true));
    assert_eq!(text, Ok("a.txt  b.txt  \x1b[34;1mdir1\x1b[0m".to_string()));
}

#[test]
fn listing_turned_round() {
    let mut options = no_options();
    options.is_sort_reverse = true;
    let (text, _) = process_entries(example(), &options, &environment(false));
    assert_eq!(text, Ok("dir1  b.txt  a.txt".to_string()));
}

#[test]
fn listing_with_one_entry_on_each_line() {
    let mut options = no_options();
    options.is_one_line = true;
    let (text, _) = process_entries(example(), &options, &environment(true));
    assert_eq!(text, Ok("a.txt\nb.txt\n\x1b[34;1mdir1\x1b[0m ".to_string()));
}

#[test]
fn listing_with_commas() {
    let mut options = no_options();
    options.is_comma_separated = true;
    let (text, _) = process_entries(example(), &options, &environment(true));
    assert_eq!(text, Ok("a.txt, b.txt, dir1".to_string()));
}

#[test]
fn listing_in_the_long_form() {
    let mut options = no_options();
    options.is_long_output = true;
    let (text, _) = process_entries(example(), &options, &environment(false));
    assert_eq!(
        text,
        Ok("total 12\n\
-rw-r--r-- 1 alice users 2048 Dec 1 a.txt\n\
-rw-r--r-- 1 alice users  300 Jan 1 b.txt\n\
drwxr-xr-x 2 alice users 4096 Mar 1 dir1 "
            .to_string())
    );
}

#[test]
fn listing_in_the_long_form_with_everything() {
    let mut options = no_options();
    options.is_long_output = true;
    options.is_numeric_uid_gid = true;
    options.is_human_readable = true;
    options.is_show_size_blocks = true;
    options.is_kibibytes = true;
    options.is_show_inode = true;
    options.is_sort_by_size = true;
    options.is_sort_reverse = true;
    options.is_access_time = true;
    let mut env = environment(true);
    env.shows_inode = true;
    let (text, _) = process_entries(example(), &options, &env);
    assert_eq!(
        text,
        Ok("total 12\n\
2048 7 -rw-r--r-- 1 1000 100  300 Jan 2 b.txt\n\
2048 7 -rw-r--r-- 1 1000 100 2.0K Dec 2 a.txt\n\
2048 7 drwxr-xr-x 2 1000 100 4.0K Mar 2 \x1b[34;1mdir1\x1b[0m "
            .to_string())
    );
}

#[test]
fn long_form_with_one_line_has_no_total() {
    let mut options = no_options();
    options.is_long_output = true;
    options.is_one_line = true;
    let (text, _) = process_entries(
        vec![found("a", Ok(metadata(false, 1, 0)))],
        &options,
        &environment(false),
    );
    assert_eq!(text, Ok("-rw-r--r-- 1 alice users 1 Jan 1 a".to_string()));
}

#[test]
fn listing_by_extension() {
    let mut options = no_options();
    options.is_sort_by_extension = true;
    let entries = vec![
        found("a.md", Ok(metadata(false, 1, 0))),
        found("b", Ok(metadata(false, 1, 0))),
        found("c.go", Ok(metadata(false, 1, 0))),
    ];
    let (text, _) = process_entries(entries, &options, &environment(false));
    assert_eq!(text, Ok("c.go  a.md  b".to_string()));
}

#[test]
fn listing_with_directories_first() {
    let mut options = no_options();
    options.is_group_directories_first = true;
    options.is_sort_by_size = true;
    let (text, _) = process_entries(example(), &options, &environment(false));
    assert_eq!(text, Ok("dir1  a.txt  b.txt".to_string()));
}

#[test]
fn listing_by_time() {
    let mut options = no_options();
    options.is_sort_by_time = true;
    let (text, _) = process_entries(example(), &options, &environment(false));
    assert_eq!(text, Ok("b.txt  a.txt  dir1".to_string()));
}

#[test]
fn an_entry_without_metadata_is_listed_by_name_and_its_failure_handed_back() {
    let mut entries = example();
    entries.push(found("broken", Err("No such file or directory".to_string())));
    let (text, failures) = process_entries(entries, &no_options(), &environment(false));
    assert_eq!(text, Ok("a.txt  b.txt  broken  dir1".to_string()));
    assert_eq!(failures, vec!["No such file or directory".to_string()]);
}

#[test]
fn failures_come_in_the_order_in_which_the_entries_were_found() {
    let entries = vec![
        found("z", Err("first".to_string())),
        found("m", Ok(metadata(false, 1, 0))),
        found("a", Err("second".to_string())),
    ];
    let mut options = no_options();
    options.is_comma_separated = true;
    let (text, failures) = process_entries(entries, &options, &environment(false));
    assert_eq!(text, Ok("a, m, z".to_string()));
    assert_eq!(failures, vec!["first".to_string(), "second".to_string()]);
}

#[test]
fn the_long_form_lists_an_entry_without_metadata_by_its_name() {
    let mut entries = example();
    entries.push(found("broken", Err("gone".to_string())));
    let mut options = no_options();
    options.is_long_output = true;
    let (text, failures) = process_entries(entries, &options, &environment(false));
    assert_eq!(
        text,
        Ok("total 12\n\
-rw-r--r-- 1 alice users 2048 Dec 1 a.txt \n\
-rw-r--r-- 1 alice users  300 Jan 1 b.txt \n\
\x20                                   broken\n\
drwxr-xr-x 2 alice users 4096 Mar 1 dir1  "
            .to_string())
    );
    assert_eq!(failures, vec!["gone".to_string()]);
}

#[test]
fn the_long_form_leaves_the_date_of_a_time_before_1970_empty() {
    let mut entries = example();
    entries.push(found("ancient", Ok(metadata(false, 1, -86400))));
    let mut options = no_options();
    options.is_long_output = true;
    let (text, failures) = process_entries(entries, &options, &environment(false));
    assert_eq!(
        text,
        Ok("total 16\n\
-rw-r--r-- 1 alice users 2048 Dec 1 a.txt  \n\
-rw-r--r-- 1 alice users    1       ancient\n\
-rw-r--r-- 1 alice users  300 Jan 1 b.txt  \n\
drwxr-xr-x 2 alice users 4096 Mar 1 dir1   "
            .to_string())
    );
    assert!(failures.is_empty());
}

#[test]
fn one_entry_on_each_line_with_blocks_lists_an_entry_without_metadata() {
    let entries = vec![
        found("z", Ok(metadata(true, 1, 0))),
        found("a", Err("gone".to_string())),
    ];
    let mut options = no_options();
    options.is_one_line = true;
    options.is_show_size_blocks = true;
    let (text, failures) = process_entries(entries, &options, &environment(false));
    assert_eq!(text, Ok("     a\n4096 z".to_string()));
    assert_eq!(failures, vec!["gone".to_string()]);
}

#[test]
fn a_failed_lookup_never_keeps_the_others_from_being_listed() {
    for bits in 0..512u32 {
        let flag = |n: u32| bits & (1 << n) != 0;
        let mut options = no_options();
        options.is_one_line = flag(0);
        options.is_long_output = flag(1);
        options.is_numeric_uid_gid = flag(2);
        options.is_show_size_blocks = flag(3);
        options.is_show_inode = flag(4);
        options.is_comma_separated = flag(5);
        options.is_human_readable = flag(6);
        options.is_sort_reverse = flag(7);
        options.is_access_time = flag(8);
        let mut env = environment(flag(0));
        env.shows_inode = flag(4);
        let mut entries = example();
        entries.push(found("broken", Err("gone".to_string())));
        entries.push(found("ancient", Ok(metadata(false, 1, -5))));
        let (text, failures) = process_entries(entries, &options, &env);
        let text = text.unwrap();
        assert_eq!(failures, vec!["gone".to_string()]);
        for name in ["a.txt", "b.txt", "dir1", "broken", "ancient"] {
            assert!(text.contains(name), "{} in {:?}", name, text);
        }
        if options.is_one_line || options.is_long_output || options.is_numeric_uid_gid {
            let lines: Vec<&str> = text.split('\n').collect();
            let with_total = !options.is_one_line;
            assert_eq!(lines.len(), if with_total { 6 } else { 5 });
            assert_eq!(lines[0].starts_with("total 16"), with_total);
        }
    }
}

#[test]
fn fill_rows_brings_every_row_to_the_length_of_the_longest() {
    let rows = vec![
        vec!["1".to_string(), "2".to_string(), "a".to_string()],
        vec!["b".to_string()],
        vec![],
        vec!["3".to_string(), "c".to_string()],
    ];
    assert_eq!(
        rsls::listing::fill_rows(rows),
        vec![
            vec!["1".to_string(), "2".to_string(), "a".to_string()],
            vec![String::new(), String::new(), "b".to_string()],
            vec![String::new(), String::new(), String::new()],
            vec!["3".to_string(), String::new(), "c".to_string()],
        ]
    );
    assert_eq!(rsls::listing::fill_rows(Vec::new()), Vec::<Vec<String>>::new());
    let even = vec![vec!["x".to_string()], vec!["y".to_string()]];
    assert_eq!(rsls::listing::fill_rows(even.clone()), even);
}

#[test]
fn listing_of_an_empty_directory() {
    let mut options = no_options();
    let (text, failures) = process_entries(Vec::new(), &options, &environment(false));
    assert_eq!(text, Ok(String::new()));
    assert!(failures.is_empty());
    options.is_comma_separated = true;
    let (text, _) = process_entries(Vec::new(), &options, &environment(false));
    assert_eq!(text, Ok(String::new()));
    options.is_one_line = true;
    let (text, _) = process_entries(Vec::new(), &options, &environment(false));
    assert_eq!(text, Ok(String::new()));
    options.is_long_output = true;
    options.is_one_line = false;
    let (text, _) = process_entries(Vec::new(), &options, &environment(false));
    assert_eq!(text, Ok("total 0\n".to_string()));
}

#[test]
fn names_and_render_show_the_entries_as_they_stand() {
    let listing = RSEntries {
        entries: vec![
            RSEntry {
                name: "z".to_string(),
                path: "z".to_string(),
                metadata: Some(metadata(true, 1, 0)),
            },
            RSEntry {
                name: "a".to_string(),
                path: "a".to_string(),
                metadata: None,
            },
        ],
        block_size: 3,
    };
    assert_eq!(listing.names(), vec!["z".to_string(), "a".to_string()]);
    let mut options = no_options();
    assert_eq!(
        listing.render(&options, &environment(true)),
        Ok("\x1b[34;1mz\x1b[0m  a".to_string())
    );
    options.is_show_size_blocks = true;
    assert_eq!(
        listing.render(&options, &environment(false)),
        Ok("4096  z  a".to_string())
    );
    options.is_one_line = true;
    assert_eq!(
        listing.render(&options, &environment(false)),
        Ok("4096 z\n     a".to_string())
    );
    options.is_show_size_blocks = false;
    options.is_long_output = false;
    assert_eq!(listing.render(&options, &environment(false)), Ok("z\na".to_string()));
}

#[test]
fn message_for_a_directory_that_cannot_be_read() {
    assert_eq!(
        rsls::listing::cannot_access("/nowhere", "No such file or directory (os error 2)"),
        "rs: cannot access '/nowhere': No such file or directory (os error 2)"
    );
    assert_eq!(rsls::listing::cannot_access("", ""), "rs: cannot access '': ");
}
