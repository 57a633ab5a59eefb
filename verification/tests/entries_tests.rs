use rsls::entries::{get_entries, Found, RSEntries};
use rsls::entry::{Environment, FileMetadata, RSEntry};
use rsls::options::{Options, RSSort};
use rsls::order::{compare_names, precedes};
use rsls::text::Order;

fn no_options() -> Options {
    Options {
        is_show_all: false,
        is_show_almost_all: false,
        is_one_line: false,
        is_long_output: false,
        is_numeric_uid_gid: false,
        is_human_readable: false,
        is_group_directories_first: false,
        is_ignore_backups: false,
        is_sort_by_time: false,
        is_sort_by_size: false,
        is_sort_by_extension: false,
        is_sort_reverse: false,
        is_show_size_blocks: false,
        is_access_time: false,
        is_show_inode: false,
        is_kibibytes: false,
        is_comma_separated: false,
    }
}

fn metadata(size: u64, modified: i64, accessed: i64, directory: bool) -> FileMetadata {
    FileMetadata {
        is_directory: directory,
        is_regular_file: !directory,
        is_symlink: false,
        size_bytes: size,
        permission_bits: 0o100644,
        hard_link_count: 1,
        owner_id: 0,
        group_id: 0,
        modified_time: modified,
        accessed_time: accessed,
        block_count: 2048,
        inode: 1,
    }
}

fn file(name: &str, size: u64, modified: i64, accessed: i64) -> RSEntry {
    RSEntry {
        name: name.to_string(),
        path: format!("dir/{}", name),
        metadata: Some(metadata(size, modified, accessed, false)),
    }
}

fn directory(name: &str) -> RSEntry {
    RSEntry {
        name: name.to_string(),
        path: format!("dir/{}", name),
        metadata: Some(metadata(4096, 0, 0, true)),
    }
}

fn unknown(name: &str) -> RSEntry {
    RSEntry {
        name: name.to_string(),
        path: format!("dir/{}", name),
        metadata: None,
    }
}

fn listing(entries: Vec<RSEntry>) -> RSEntries {
    RSEntries {
        entries,
        block_size: 0,
    }
}

fn names(listing: &RSEntries) -> Vec<&str> {
    listing.entries.iter().map(|entry| entry.name.as_str()).collect()
}

fn sorted(entries: Vec<RSEntry>, kind: RSSort) -> Vec<String> {
    let mut listing = listing(entries);
    listing.sort_by(kind);
    listing.entries.into_iter().map(|entry| entry.name).collect()
}

fn all_kinds() -> [RSSort; 6] {
    [
        RSSort::Default,
        RSSort::Directory,
        RSSort::Time,
        RSSort::AccessTime,
        RSSort::Size,
        RSSort::Extension,
    ]
}

#[test]
fn compare_names_is_by_bytes() {
    assert_eq!(compare_names(&file("a", 0, 0, 0), &file("b", 0, 0, 0)), Order::Less);
    assert_eq!(compare_names(&file("b", 0, 0, 0), &file("a", 0, 0, 0)), Order::Greater);
    assert_eq!(compare_names(&file("a", 1, 2, 3), &unknown("a")), Order::Equal);
    assert_eq!(compare_names(&file("B", 0, 0, 0), &file("a", 0, 0, 0)), Order::Less);
}

#[test]
fn sort_by_name() {
    let entries = vec![
        file("b.txt", 1, 1, 1),
        file("a.txt", 2, 2, 2),
        directory("dir1"),
    ];
    assert_eq!(sorted(entries, RSSort::Default), vec!["a.txt", "b.txt", "dir1"]);
}

#[test]
fn sort_by_name_puts_capitals_first() {
    let entries = vec![
        file("b", 0, 0, 0),
        file("a", 0, 0, 0),
        file("B", 0, 0, 0),
        file("A", 0, 0, 0),
    ];
    assert_eq!(sorted(entries, RSSort::Default), vec!["A", "B", "a", "b"]);
}

#[test]
fn sort_by_size_puts_the_largest_first() {
    let entries = vec![file("a", 10, 0, 0), file("b", 30, 0, 0), file("c", 20, 0, 0)];
    assert_eq!(sorted(entries, RSSort::Size), vec!["b", "c", "a"]);
}

#[test]
fn sort_by_size_orders_equal_sizes_by_name() {
    let entries = vec![
        file("d", 5, 0, 0),
        file("c", 10, 0, 0),
        file("a", 10, 0, 0),
        file("b", 10, 0, 0),
        file("e", 50, 0, 0),
    ];
    assert_eq!(sorted(entries, RSSort::Size), vec!["e", "a", "b", "c", "d"]);
}

#[test]
fn sort_by_time_puts_the_newest_first() {
    let entries = vec![
        file("old", 0, 100, 900),
        file("new", 0, 300, 700),
        file("mid", 0, 200, 800),
        file("also_mid", 0, 200, 800),
        file("before_1970", 0, -5, 0),
    ];
    assert_eq!(
        sorted(entries, RSSort::Time),
        vec!["new", "also_mid", "mid", "old", "before_1970"]
    );
}

#[test]
fn sort_by_access_time_puts_the_newest_first() {
    let entries = vec![
        file("old", 0, 100, 900),
        file("new", 0, 300, 700),
        file("mid", 0, 200, 800),
    ];
    assert_eq!(sorted(entries, RSSort::AccessTime), vec!["old", "mid", "new"]);
}

#[test]
fn sort_puts_directories_first() {
    let entries = vec![
        file("b.txt", 0, 0, 0),
        directory("zdir"),
        file("a.txt", 0, 0, 0),
        directory("adir"),
    ];
    assert_eq!(
        sorted(entries, RSSort::Directory),
        vec!["adir", "zdir", "a.txt", "b.txt"]
    );
}

#[test]
fn sort_by_extension_puts_entries_without_one_last() {
    let entries = vec![file("a.md", 0, 0, 0), file("b", 0, 0, 0), file("c.go", 0, 0, 0)];
    assert_eq!(sorted(entries, RSSort::Extension), vec!["c.go", "a.md", "b"]);
}

#[test]
fn sort_by_extension_then_by_name() {
    let entries = vec![
        file("z.rs", 0, 0, 0),
        file("m", 0, 0, 0),
        file("b.rs", 0, 0, 0),
        file("a", 0, 0, 0),
        file(".hidden", 0, 0, 0),
        file("k.c", 0, 0, 0),
        file("ends.", 0, 0, 0),
        file("x.tar.gz", 0, 0, 0),
    ];
    assert_eq!(
        sorted(entries, RSSort::Extension),
        vec!["k.c", "x.tar.gz", "b.rs", "z.rs", ".hidden", "a", "ends.", "m"]
    );
}

#[test]
fn sort_by_extension_reads_the_path() {
    let mut odd = file("plain", 0, 0, 0);
    odd.path = "dir/plain.aaa".to_string();
    let entries = vec![file("b.bbb", 0, 0, 0), odd];
    assert_eq!(sorted(entries, RSSort::Extension), vec!["plain", "b.bbb"]);
}

#[test]
fn entries_without_metadata_are_ordered_by_name() {
    for kind in all_kinds() {
        let entries = vec![unknown("c"), unknown("a.z"), unknown("b")];
        assert_eq!(sorted(entries, kind), vec!["a.z", "b", "c"]);
    }
}

#[test]
fn an_entry_without_metadata_stands_by_its_name() {
    assert!(precedes(RSSort::Size, &unknown("a"), &file("b", 100, 0, 0)));
    assert!(!precedes(RSSort::Size, &file("b", 100, 0, 0), &unknown("a")));
    assert!(precedes(RSSort::Directory, &file("a", 1, 0, 0), &unknown("b")));
    assert!(!precedes(RSSort::Directory, &directory("z"), &unknown("b")));
}

#[test]
fn precedes_by_each_criterion() {
    let small_new = file("a", 1, 200, 10);
    let large_old = file("b", 9, 100, 20);
    assert!(precedes(RSSort::Default, &small_new, &large_old));
    assert!(!precedes(RSSort::Default, &large_old, &small_new));
    assert!(!precedes(RSSort::Size, &small_new, &large_old));
    assert!(precedes(RSSort::Size, &large_old, &small_new));
    assert!(precedes(RSSort::Time, &small_new, &large_old));
    assert!(!precedes(RSSort::Time, &large_old, &small_new));
    assert!(!precedes(RSSort::AccessTime, &small_new, &large_old));
    assert!(precedes(RSSort::AccessTime, &large_old, &small_new));
    assert!(precedes(RSSort::Directory, &directory("z"), &small_new));
    assert!(!precedes(RSSort::Directory, &small_new, &directory("z")));
    assert!(precedes(RSSort::Extension, &file("z.a", 0, 0, 0), &file("a.b", 0, 0, 0)));
    assert!(!precedes(RSSort::Extension, &file("a.b", 0, 0, 0), &file("z.a", 0, 0, 0)));
    assert!(precedes(RSSort::Extension, &file("z.a", 0, 0, 0), &file("a", 0, 0, 0)));
    assert!(!precedes(RSSort::Extension, &file("a", 0, 0, 0), &file("z.a", 0, 0, 0)));
}

#[test]
fn precedes_holds_one_way_or_the_other_and_of_an_entry_with_itself() {
    let entries = vec![
        file("a.x", 1, 5, 9),
        file("b", 1, 7, 9),
        file("c.x", 3, 5, 2),
        directory("d"),
        directory("a"),
        unknown("b.y"),
        unknown("e"),
    ];
    for kind in all_kinds() {
        for a in &entries {
            assert!(precedes(kind, a, a));
            for b in &entries {
                assert!(precedes(kind, a, b) || precedes(kind, b, a));
                if precedes(kind, a, b) && precedes(kind, b, a) {
                    assert_eq!(a.name, b.name);
                }
            }
        }
    }
}

#[test]
fn precedes_carries_over_among_entries_with_metadata() {
    let entries = vec![
        file("a.x", 1, 5, 9),
        file("b", 1, 7, 9),
        file("c.x", 3, 5, 2),
        file("c.w", 3, 7, 2),
        directory("d"),
        directory("a"),
    ];
    for kind in all_kinds() {
        for a in &entries {
            for b in &entries {
                for c in &entries {
                    if precedes(kind, a, b) && precedes(kind, b, c) {
                        assert!(precedes(kind, a, c));
                    }
                }
            }
        }
    }
}

#[test]
fn sort_keeps_every_entry_and_puts_each_before_the_next() {
    let entries = || {
        vec![
            file("m.x", 4, 1, 8),
            unknown("q"),
            file("a.y", 4, 3, 8),
            directory("z"),
            file("k", 2, 3, 1),
            unknown("b.x"),
            directory("c"),
            file("a.x", 9, 0, 0),
        ]
    };
    for kind in all_kinds() {
        let mut listing = listing(entries());
        listing.sort_by(kind);
        let mut expected: Vec<String> = entries().into_iter().map(|entry| entry.name).collect();
        let mut found: Vec<String> = listing
            .entries
            .iter()
            .map(|entry| entry.name.clone())
            .collect();
        expected.sort();
        found.sort();
        assert_eq!(found, expected);
        for pair in listing.entries.windows(2) {
            assert!(precedes(kind, &pair[0], &pair[1]));
        }
    }
}

#[test]
fn sort_of_many_entries() {
    let many = || {
        let mut entries = Vec::new();
        let mut seed: u64 = 12345;
        for _ in 0..2000 {
            seed = seed
                .wrapping_mul(6364136223846793005)
                .wrapping_add(1442695040888963407);
            let number = seed >> 40;
            entries.push(file(
                &format!("f{}.e{}", number, number % 7),
                number % 50,
                (number % 70) as i64,
                (number % 30) as i64,
            ));
        }
        entries
    };
    for kind in all_kinds() {
        let mut listing = listing(many());
        listing.sort_by(kind);
        assert_eq!(listing.entries.len(), 2000);
        for i in 0..listing.entries.len() {
            for j in [i + 1, i + 2, i + 100, 1999] {
                if i < j && j < listing.entries.len() {
                    assert!(precedes(kind, &listing.entries[i], &listing.entries[j]));
                }
            }
        }
    }
}

#[test]
fn sort_of_nothing_and_of_one() {
    assert_eq!(sorted(Vec::new(), RSSort::Size), Vec::<String>::new());
    assert_eq!(sorted(vec![file("a", 0, 0, 0)], RSSort::Size), vec!["a"]);
}

#[test]
fn sort_keeps_the_total() {
    let mut listing = RSEntries {
        entries: vec![file("b", 0, 0, 0), file("a", 0, 0, 0)],
        block_size: 77,
    };
    listing.sort_by(RSSort::Default);
    assert_eq!(listing.block_size, 77);
    listing.reverse();
    assert_eq!(listing.block_size, 77);
}

#[test]
fn reverse_turns_the_order_round() {
    let mut listing = listing(vec![file("a", 0, 0, 0), file("b", 0, 0, 0), file("c", 0, 0, 0)]);
    listing.reverse();
    assert_eq!(names(&listing), vec!["c", "b", "a"]);
}

#[test]
fn reverse_twice_gives_the_order_back() {
    let mut listing = listing(vec![
        file("m", 0, 0, 0),
        unknown("a"),
        directory("z"),
        file("b", 0, 0, 0),
    ]);
    listing.reverse();
    listing.reverse();
    assert_eq!(names(&listing), vec!["m", "a", "z", "b"]);
    let mut empty = RSEntries {
        entries: Vec::new(),
        block_size: 0,
    };
    empty.reverse();
    assert!(empty.entries.is_empty());
}

#[test]
fn reverse_after_sort_turns_ties_round_too() {
    let mut listing = listing(vec![file("a", 5, 0, 0), file("b", 5, 0, 0), file("c", 9, 0, 0)]);
    listing.sort_by(RSSort::Size);
    listing.reverse();
    assert_eq!(names(&listing), vec!["b", "a", "c"]);
}

#[test]
fn get_entries_lists_each_name_and_adds_up_blocks() {
    let found = vec![
        Found {
            name: "b.txt".to_string(),
            path: "dir/b.txt".to_string(),
            metadata: Ok(metadata(1, 0, 0, false)),
        },
        Found {
            name: "gone".to_string(),
            path: "dir/gone".to_string(),
            metadata: Err("No such file or directory (os error 2)".to_string()),
        },
        Found {
            name: "a.txt".to_string(),
            path: "dir/a.txt".to_string(),
            metadata: Ok(FileMetadata {
                block_count: 5000,
                ..metadata(2, 0, 0, false)
            }),
        },
        Found {
            name: "tiny".to_string(),
            path: "dir/tiny".to_string(),
            metadata: Ok(FileMetadata {
                block_count: 1023,
                ..metadata(2, 0, 0, false)
            }),
        },
    ];
    let (listing, failures) = get_entries(found);
    assert_eq!(names(&listing), vec!["b.txt", "gone", "a.txt", "tiny"]);
    assert_eq!(listing.entries[0].path, "dir/b.txt");
    assert_eq!(listing.entries[0].metadata.unwrap().size_bytes, 1);
    assert!(listing.entries[1].metadata.is_none());
    assert_eq!(listing.entries[2].metadata.unwrap().block_count, 5000);
    assert_eq!(listing.block_size, 2 + 4);
    assert_eq!(failures, vec!["No such file or directory (os error 2)".to_string()]);
}

#[test]
fn get_entries_of_nothing() {
    let (listing, failures) = get_entries(Vec::new());
    assert!(listing.entries.is_empty());
    assert_eq!(listing.block_size, 0);
    assert!(failures.is_empty());
}

#[test]
fn get_entries_adds_up_the_greatest_counts() {
    let found = (0..3)
        .map(|i| Found {
            name: format!("f{}", i),
            path: format!("f{}", i),
            metadata: Ok(FileMetadata {
                block_count: u64::MAX,
                ..metadata(0, 0, 0, false)
            }),
        })
        .collect();
    let (listing, _) = get_entries(found);
    assert_eq!(listing.block_size, 3 * (u64::MAX / 1024) as u128);
}

#[test]
fn to_tabular_gives_one_row_for_each_entry() {
    let listing = listing(vec![file("a", 0, 0, 0), unknown("b"), directory("c")]);
    let env = Environment {
        is_terminal: true,
        shows_inode: false,
        user_db: None,
        group_db: None,
    };
    let mut options = no_options();
    let rows = listing.to_tabular(&options, &env);
    assert_eq!(
        rows,
        vec![
            vec!["a".to_string()],
            vec!["b".to_string()],
            vec!["\x1b[34;1mc\x1b[0m".to_string()]
        ]
    );
    options.is_show_size_blocks = true;
    let rows = listing.to_tabular(&options, &env);
    assert_eq!(rows[0], vec!["2048".to_string(), "a".to_string()]);
    assert_eq!(rows[1], vec!["b".to_string()]);
    let empty = RSEntries {
        entries: Vec::new(),
        block_size: 0,
    };
    assert!(empty.to_tabular(&options, &env).is_empty());
}
