use md_wiki::html_aggregator::slugify;
use md_wiki::link_translator::translate_url;
use md_wiki::path::{components, join, join_components, path_extension, path_file_name, strip_path_prefix};
use md_wiki::text::{split_chars, str_chars, string_less, join_non_empty};

fn chars(s: &str) -> Vec<char> {
    s.chars().collect()
}

fn strings(v: &[Vec<char>]) -> Vec<String> {
    v.iter().map(|c| c.iter().collect()).collect()
}

#[test]
fn slugify_lowercases_and_joins_words() {
    assert_eq!(slugify("Hello World"), "hello-world");
    assert_eq!(slugify("Main Heading"), "main-heading");
}

#[test]
fn slugify_drops_punctuation_and_collapses_dashes() {
    assert_eq!(slugify("C++ & Rust!"), "c-rust");
    assert_eq!(slugify("  Multiple   Spaces--here "), "multiple-spaces-here");
    assert_eq!(slugify("!!!"), "");
    assert_eq!(slugify(""), "");
}

#[test]
fn slugify_keeps_unicode_letters() {
    assert_eq!(slugify("Ünïcode Öl"), "ünïcode-öl");
    assert_eq!(slugify("Tab\tSeparated"), "tab-separated");
}

#[test]
fn slug_shape_law_on_examples() {
    for text in ["--a--b--", " x ", "A-B C", "ÄÖÜ -- ß", "?"] {
        let s = slugify(text);
        assert!(!s.starts_with('-') && !s.ends_with('-'), "{:?}", s);
        assert!(!s.contains("--"), "{:?}", s);
        assert!(s.chars().all(|c| c == '-' || c.is_alphanumeric()), "{:?}", s);
    }
}

#[test]
fn translate_url_rewrites_markdown_targets() {
    assert_eq!(translate_url("page.md"), "page.html");
    assert_eq!(translate_url("page2.md#another-heading"), "page2.html#another-heading");
    assert_eq!(translate_url("dir/a.md"), "dir/a.html");
    assert_eq!(translate_url("a.md.md"), "a.md.html");
}

#[test]
fn translate_url_leaves_other_targets() {
    assert_eq!(translate_url("#sub-heading"), "#sub-heading");
    assert_eq!(translate_url("image.png"), "image.png");
    assert_eq!(translate_url("page.html"), "page.html");
    assert_eq!(translate_url("notes.md.txt#x.md"), "notes.md.txt#x.md");
    assert_eq!(translate_url(""), "");
}

#[test]
fn translate_url_is_idempotent_and_keeps_fragments() {
    for url in ["a.md", "a.md#b", "x#y.md", "https://example.com/p.md", "plain"] {
        let once = translate_url(url);
        assert_eq!(translate_url(&once), once);
        let fragment = url.find('#').map(|i| &url[i..]).unwrap_or("");
        assert!(once.ends_with(fragment));
    }
}

#[test]
fn split_and_join_pieces() {
    let pieces = split_chars(&chars("-a--b-"), '-');
    assert_eq!(strings(&pieces), vec!["", "a", "", "b", ""]);
    let joined: String = join_non_empty(&pieces, '-').iter().collect();
    assert_eq!(joined, "a-b");
}

#[test]
fn string_order_is_lexicographic() {
    assert!(string_less("aaa", "mmm"));
    assert!(string_less("ab", "abc"));
    assert!(!string_less("b", "a"));
    assert!(!string_less("same", "same"));
    assert_eq!(str_chars("héllo"), chars("héllo"));
}

#[test]
fn join_follows_path_join() {
    assert_eq!(join("/input", "page1.md"), "/input/page1.md");
    assert_eq!(join("/input/", "page1.md"), "/input/page1.md");
    assert_eq!(join("/input", "/abs/x"), "/abs/x");
    assert_eq!(join("", "rel"), "rel");
    assert_eq!(join("/output", "assets/image.txt"), "/output/assets/image.txt");
}

#[test]
fn components_skip_empty_and_dot() {
    assert_eq!(strings(&components("/input//./notes/a.md")), vec!["input", "notes", "a.md"]);
    assert_eq!(strings(&components("rel/x")), vec!["rel", "x"]);
    assert!(components("/").is_empty());
}

#[test]
fn file_name_and_extension() {
    assert_eq!(path_file_name("/input/page.md"), Some(String::from("page.md")));
    assert_eq!(path_file_name("/input/.."), None);
    assert_eq!(path_file_name("/"), None);
    assert_eq!(path_extension("/input/page.md"), Some(String::from("md")));
    assert_eq!(path_extension("/input/archive.tar.gz"), Some(String::from("gz")));
    assert_eq!(path_extension("/input/.hidden"), None);
    assert_eq!(path_extension("/input/noext"), None);
}

#[test]
fn strip_prefix_by_components() {
    let rest = strip_path_prefix("/input/assets/image.txt", "/input").unwrap();
    assert_eq!(strings(&rest), vec!["assets", "image.txt"]);
    assert_eq!(join_components(&rest), "assets/image.txt");
    assert!(strip_path_prefix("/inputs/x", "/input").is_none());
    assert!(strip_path_prefix("input/x", "/input").is_none());
    let same = strip_path_prefix("/input/", "/input").unwrap();
    assert!(same.is_empty());
}

#[test]
fn a_leading_current_directory_is_a_component() {
    assert_eq!(strings(&components("./in/a.txt")), vec![".", "in", "a.txt"]);
    assert_eq!(strings(&components(".")), vec!["."]);
    assert_eq!(strings(&components("a/./b")), vec!["a", "b"]);
    assert_eq!(strings(&components(".hidden/x")), vec![".hidden", "x"]);
    assert_eq!(path_file_name("."), None);
    assert_eq!(path_file_name("./a.md"), Some(String::from("a.md")));
    let rest = strip_path_prefix("./a.md", ".").unwrap();
    assert_eq!(strings(&rest), vec!["a.md"]);
    assert!(strip_path_prefix("a.md", ".").is_none());
}
