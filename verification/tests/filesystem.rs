use md_wiki::filesystem::{is_ignored, matches_pattern, should_include_entry, FileSystem, MockFileSystem, WikiError};

fn patterns(ps: &[&str]) -> Vec<String> {
    ps.iter().map(|p| p.to_string()).collect()
}

#[test]
fn pattern_forms() {
    assert!(matches_pattern("anything", "*"));
    assert!(matches_pattern(".git", ".*"));
    assert!(!matches_pattern("git", ".*"));
    assert!(matches_pattern("file.tmp", "*.tmp"));
    assert!(!matches_pattern("file.tmpx", "*.tmp"));
    assert!(matches_pattern("notes_draft_v1", "*draft*"));
    assert!(matches_pattern("readme.txt", "read*"));
    assert!(matches_pattern("exact", "exact"));
    assert!(!matches_pattern("exact", "other"));
    assert!(matches_pattern("", "**"));
}

#[test]
fn dot_pattern_matches_exactly_dot_names() {
    for name in [".git", ".", "..", ".hidden.png"] {
        assert!(matches_pattern(name, ".*"), "{}", name);
    }
    for name in ["", "a.b", "visible.txt"] {
        assert!(!matches_pattern(name, ".*"), "{}", name);
    }
}

#[test]
fn ignored_when_some_pattern_matches() {
    assert!(is_ignored("temp.tmp", &patterns(&["*.bak", "*.tmp"])));
    assert!(!is_ignored("keep.txt", &patterns(&["*.bak", "*.tmp"])));
    assert!(!is_ignored(".hidden", &[]));
}

#[test]
fn dot_directories_given_as_the_root_are_entered() {
    let dots = patterns(&[".*"]);
    assert!(should_include_entry(".", true, &dots));
    assert!(should_include_entry("..", true, &dots));
    assert!(!should_include_entry(".", false, &dots));
    assert!(!should_include_entry(".git", true, &dots));
    assert!(should_include_entry("src", false, &dots));
}

#[test]
fn mock_files_are_added_read_and_counted() {
    let mut fs = MockFileSystem::default();
    assert_eq!(fs.file_count(), 0);
    fs.add_file("/input/a.md", "one");
    fs.add_file("/input/b.md", "two");
    fs.add_file("/input/a.md", "three");
    assert_eq!(fs.file_count(), 2);
    assert_eq!(fs.get_file("/input/a.md"), Some(String::from("three")));
    assert_eq!(fs.get_file("/input/c.md"), None);
    assert!(fs.path_exists("/input/b.md"));
    assert!(!fs.path_exists("/input"));
}

#[test]
fn mock_read_after_write_and_copy() {
    let mut fs = MockFileSystem::new();
    fs.write("/out/x.txt", "data").unwrap();
    assert_eq!(fs.read_to_string("/out/x.txt").unwrap(), "data");
    fs.create_dir_all("/out/sub").unwrap();
    fs.copy("/out/x.txt", "/out/sub/y.txt").unwrap();
    assert_eq!(fs.read_to_string("/out/sub/y.txt").unwrap(), "data");
    assert_eq!(fs.read_to_string("/out/x.txt").unwrap(), "data");
    match fs.read_to_string("/missing") {
        Err(WikiError::NotFound(p)) => assert_eq!(p, "/missing"),
        _ => panic!("expected NotFound"),
    }
    assert!(fs.copy("/missing", "/out/z").is_err());
    assert_eq!(fs.get_file("/out/z"), None);
}

#[test]
fn mock_walk_filters_by_base_and_patterns() {
    let mut fs = MockFileSystem::new();
    fs.add_file("/input/index.md", "i");
    fs.add_file("/input/.git/config", "g");
    fs.add_file("/input/assets/.hidden.png", "h");
    fs.add_file("/input/assets/image.png", "p");
    fs.add_file("/other/x.md", "x");
    fs.add_file("/inputs/y.md", "y");
    let all = fs.walk_dir("/input", &[]).unwrap();
    assert_eq!(
        all,
        vec![
            String::from("/input/index.md"),
            String::from("/input/.git/config"),
            String::from("/input/assets/.hidden.png"),
            String::from("/input/assets/image.png"),
        ]
    );
    let visible = fs.walk_dir("/input", &patterns(&[".*"])).unwrap();
    assert_eq!(visible, vec![String::from("/input/index.md"), String::from("/input/assets/image.png")]);
    let no_png = fs.walk_dir("/input", &patterns(&["*.png", "index*"])).unwrap();
    assert_eq!(no_png, vec![String::from("/input/.git/config")]);
}

#[test]
fn mock_walk_checks_a_leading_current_directory() {
    let mut fs = MockFileSystem::new();
    fs.add_file("./in/a.txt", "a");
    assert_eq!(fs.walk_dir("./in", &[]).unwrap(), vec![String::from("./in/a.txt")]);
    assert!(fs.walk_dir("./in", &patterns(&[".*"])).unwrap().is_empty());
}
