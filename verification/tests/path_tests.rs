use rsls::path::{extension_bounds, file_name_bounds};

fn extension_of(path: &str) -> Option<String> {
    let bytes = path.as_bytes();
    extension_bounds(bytes).map(|(from, to)| String::from_utf8(bytes[from..to].to_vec()).unwrap())
}

fn file_name_of(path: &str) -> String {
    let bytes = path.as_bytes();
    let (from, to) = file_name_bounds(bytes);
    String::from_utf8(bytes[from..to].to_vec()).unwrap()
}

#[test]
fn extension_follows_the_last_dot() {
    assert_eq!(extension_of("a.md"), Some("md".to_string()));
    assert_eq!(extension_of("dir/c.go"), Some("go".to_string()));
    assert_eq!(extension_of("archive.tar.gz"), Some("gz".to_string()));
    assert_eq!(extension_of("./a.txt"), Some("txt".to_string()));
}

#[test]
fn no_extension_without_a_dot() {
    assert_eq!(extension_of("b"), None);
    assert_eq!(extension_of("dir.d/file"), None);
    assert_eq!(extension_of(""), None);
    assert_eq!(extension_of("/"), None);
}

#[test]
fn a_dot_in_front_begins_no_extension() {
    assert_eq!(extension_of(".bashrc"), None);
    assert_eq!(extension_of("home/.profile"), None);
    assert_eq!(extension_of(".config.bak"), Some("bak".to_string()));
}

#[test]
fn a_dot_at_the_end_begins_an_empty_extension() {
    assert_eq!(extension_of("name."), Some("".to_string()));
}

#[test]
fn the_directory_itself_and_the_one_above() {
    assert_eq!(extension_of("."), None);
    assert_eq!(extension_of(".."), None);
    assert_eq!(extension_of("./."), None);
    assert_eq!(extension_of("./.."), None);
    assert_eq!(extension_of("music.d/."), Some("d".to_string()));
    assert_eq!(extension_of("music.d/.."), None);
}

#[test]
fn file_name_is_the_last_part() {
    assert_eq!(file_name_of("a/b/c.txt"), "c.txt");
    assert_eq!(file_name_of("c.txt"), "c.txt");
    assert_eq!(file_name_of("a/b/"), "b");
    assert_eq!(file_name_of("a/b//"), "b");
    assert_eq!(file_name_of("a/b/."), "b");
    assert_eq!(file_name_of("a/b/./"), "b");
    assert_eq!(file_name_of("a/.."), "");
    assert_eq!(file_name_of("/"), "");
    assert_eq!(file_name_of("."), "");
    assert_eq!(file_name_of(""), "");
    assert_eq!(file_name_of("..."), "...");
}

#[test]
fn extension_agrees_with_the_paths_of_the_standard_library() {
    let paths = [
        "",
        ".",
        "..",
        "/",
        "//",
        "a",
        "a.b",
        "a.b.c",
        ".a",
        ".a.b",
        "a.",
        "a..",
        "..a",
        "...",
        "a/b.c",
        "a.b/c",
        "a.b/c.d",
        "a.b/",
        "a.b//",
        "a.b/.",
        "a.b/./",
        "a.b/./.",
        "a.b/..",
        "a.b/../",
        "./a.b",
        "./.a",
        "././a.b",
        "/a.b",
        "/.a",
        "/a/./b.c/.",
        "x/y.z/..",
        "dir/.hidden.txt",
        "dir/file.tar.gz",
        "what é.txt",
        "é.é",
    ];
    for path in paths {
        let expected = std::path::Path::new(path)
            .extension()
            .map(|found| found.to_str().unwrap().to_string());
        assert_eq!(extension_of(path), expected, "path {:?}", path);
    }
}

#[test]
fn file_name_agrees_with_the_paths_of_the_standard_library() {
    let paths = [
        "", ".", "..", "/", "a", "a/", "a//", "a/.", "a/./", "a/..", "./a", "/a", "a/b", "a/b/.",
        "a/./b", "...", "a/...", ".a", "a/.b", "./.", "././", "/.", "/..",
    ];
    for path in paths {
        let expected = std::path::Path::new(path)
            .file_name()
            .map(|found| found.to_str().unwrap().to_string())
            .unwrap_or_default();
        assert_eq!(file_name_of(path), expected, "path {:?}", path);
    }
}
