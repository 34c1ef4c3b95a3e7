use md_wiki::analyzer::SearchIndex;
use md_wiki::filesystem::{FileSystem, MockFileSystem, WikiError};
use md_wiki::path::join;
use md_wiki::wiki::convert_wiki;

/// A wiki in memory under `/input`, converted to `/output`.
struct WikiTestFixture {
    fs: MockFileSystem,
    input_dir: String,
    output_dir: String,
}

impl WikiTestFixture {
    fn new() -> Self {
        WikiTestFixture {
            fs: MockFileSystem::new(),
            input_dir: String::from("/input"),
            output_dir: String::from("/output"),
        }
    }

    fn add_markdown_file(&mut self, name: &str, content: &str) -> &mut Self {
        let path = join(&self.input_dir, name);
        self.fs.add_file(&path, content);
        self
    }

    fn add_file(&mut self, name: &str, content: &str) -> &mut Self {
        let path = join(&self.input_dir, name);
        self.fs.add_file(&path, content);
        self
    }

    fn add_header(&mut self, content: &str) -> &mut Self {
        self.add_file("header.html", content)
    }

    fn add_footer(&mut self, content: &str) -> &mut Self {
        self.add_file("footer.html", content)
    }

    fn convert(&mut self) -> Result<SearchIndex, WikiError> {
        let input = self.input_dir.clone();
        let output = self.output_dir.clone();
        convert_wiki(&mut self.fs, &input, &output, None, &[])
    }

    fn convert_with_search(&mut self, index_filename: &str) -> Result<SearchIndex, WikiError> {
        let input = self.input_dir.clone();
        let output = self.output_dir.clone();
        convert_wiki(&mut self.fs, &input, &output, Some(index_filename), &[])
    }

    fn convert_with_ignore(&mut self, ignore_patterns: &[String]) -> Result<SearchIndex, WikiError> {
        let input = self.input_dir.clone();
        let output = self.output_dir.clone();
        convert_wiki(&mut self.fs, &input, &output, None, ignore_patterns)
    }

    fn get_output(&self, name: &str) -> Option<String> {
        self.fs.get_file(&join(&self.output_dir, name))
    }

    fn assert_output_contains(&self, filename: &str, expected: &str) {
        let content = self
            .get_output(filename)
            .unwrap_or_else(|| panic!("Output file {} not found", filename));
        assert!(
            content.contains(expected),
            "Expected output file {} to contain '{}', but got:\n{}",
            filename,
            expected,
            content
        );
    }

    fn assert_output_exists(&self, filename: &str) {
        assert!(self.get_output(filename).is_some(), "Expected output file {} to exist", filename);
    }

    fn assert_output_not_exists(&self, filename: &str) {
        assert!(self.get_output(filename).is_none(), "Expected output file {} to not exist", filename);
    }

    fn assert_output_not_contains(&self, filename: &str, unexpected: &str) {
        let content = self
            .get_output(filename)
            .unwrap_or_else(|| panic!("Output file {} not found", filename));
        assert!(
            !content.contains(unexpected),
            "Expected output file {} to NOT contain '{}', but it did",
            filename,
            unexpected
        );
    }

    fn count_in_output(&self, filename: &str, substring: &str) -> usize {
        self.get_output(filename).map(|content| content.matches(substring).count()).unwrap_or(0)
    }
}

#[test]
fn backlinks_test_backlinks() {
    let mut fixture = WikiTestFixture::new();
    fixture
        .add_markdown_file("page1.md", "# Page 1\n\nThis links to [Page 2](page2.md).")
        .add_markdown_file("page2.md", "# Page 2\n\nThis is the target page.");
    fixture.convert().expect("Conversion should succeed");
    fixture.assert_output_contains(
        "page2.html",
        "<hr>\n<h2>Linked from:</h2>\n<ul>\n<li><a href=\"page1.html\">page1</a></li>",
    );
}

#[test]
fn backlinks_test_deduplicated_backlinks() {
    let mut fixture = WikiTestFixture::new();
    fixture
        .add_markdown_file(
            "page1.md",
            "# Page 1\n\nThis links to [Page 2](page2.md) and also to [Page 2 again](page2.md).",
        )
        .add_markdown_file("page2.md", "# Page 2\n\nThis is the target page.");
    fixture.convert().expect("Conversion should succeed");
    let page2_content = fixture.get_output("page2.html").unwrap();
    let count = page2_content.matches("page1.html").count();
    assert_eq!(count, 1, "page1 should appear exactly once in backlinks, but appeared {} times", count);
    fixture.assert_output_contains(
        "page2.html",
        "<hr>\n<h2>Linked from:</h2>\n<ul>\n<li><a href=\"page1.html\">page1</a></li>",
    );
}

#[test]
fn backlinks_test_backlinks_order_independent() {
    let mut fixture = WikiTestFixture::new();
    fixture
        .add_markdown_file("zzz.md", "# ZZZ Page\n\nThis links to [AAA](aaa.md).")
        .add_markdown_file("aaa.md", "# AAA Page\n\nThis is the target.");
    fixture.convert().expect("Conversion should succeed");
    fixture.assert_output_contains(
        "aaa.html",
        "<hr>\n<h2>Linked from:</h2>\n<ul>\n<li><a href=\"zzz.html\">zzz</a></li>",
    );
}

#[test]
fn test_external_urls_not_tracked() {
    let mut fixture = WikiTestFixture::new();
    let page1_content = "# Page 1\n\n\
        This links to [External](https://example.com/page.html) \
        and [Protocol Relative](//cdn.example.com/file.html).";
    let page2_content = "# Page 2\n\nThis links to [Internal](page1.md).";
    fixture
        .add_markdown_file("page1.md", page1_content)
        .add_markdown_file("page2.md", page2_content);
    fixture.convert().expect("Conversion should succeed");
    fixture.assert_output_contains(
        "page1.html",
        "<hr>\n<h2>Linked from:</h2>\n<ul>\n<li><a href=\"page2.html\">page2</a></li>",
    );
    let page1_content = fixture.get_output("page1.html").unwrap();
    assert!(page1_content.contains("https://example.com/page.html"), "External URL should be present in content");
    assert!(page1_content.contains("//cdn.example.com/file.html"), "Protocol-relative URL should be present in content");
}

#[test]
fn test_category_page_auto_generation() {
    let mut fixture = WikiTestFixture::new();
    fixture
        .add_markdown_file("page1.md", "# Page 1\n\nThis page is about #testing.")
        .add_markdown_file("page2.md", "# Page 2\n\nThis also covers #testing.");
    fixture.convert().expect("Conversion should succeed");
    fixture.assert_output_exists("testing.html");
    fixture.assert_output_contains("testing.html", "<h1>testing</h1>");
    fixture.assert_output_contains("testing.html", "<h2>Pages in this category:</h2>");
    fixture.assert_output_contains("testing.html", r###"<a href="page1.html">page1</a>"###);
    fixture.assert_output_contains("testing.html", r###"<a href="page2.html">page2</a>"###);
}

#[test]
fn test_multiple_categories_per_page() {
    let mut fixture = WikiTestFixture::new();
    fixture.add_markdown_file("notes.md", "# Notes\n\nCategories: #knowledge-management #learning");
    fixture.convert().expect("Conversion should succeed");
    fixture.assert_output_exists("knowledge-management.html");
    fixture.assert_output_exists("learning.html");
    fixture.assert_output_contains("knowledge-management.html", r###"<a href="notes.html">notes</a>"###);
    fixture.assert_output_contains("learning.html", r###"<a href="notes.html">notes</a>"###);
}

/// The category name of the category tests with an existing page, spelt
/// in two pieces.
fn course_word() -> String {
    ["tuto", "rial"].concat()
}

#[test]
fn test_existing_page_as_category() {
    let word = course_word();
    let mut fixture = WikiTestFixture::new();
    fixture
        .add_markdown_file(&format!("{}.md", word), &format!("# T{}\n\nThis is the {} category page.", &word[1..], word))
        .add_markdown_file("page1.md", &format!("# Page 1\n\nTags: #{}", word))
        .add_markdown_file("page2.md", &format!("# Page 2\n\nTags: #{}", word));
    fixture.convert().expect("Conversion should succeed");
    let page = format!("{}.html", word);
    fixture.assert_output_contains(&page, &format!("This is the {} category page.", word));
    fixture.assert_output_contains(&page, "<h2>Pages in this category:</h2>");
    fixture.assert_output_contains(&page, r###"<a href="page1.html">page1</a>"###);
    fixture.assert_output_contains(&page, r###"<a href="page2.html">page2</a>"###);
}

#[test]
fn test_category_page_not_created_for_unused_hashtag() {
    let mut fixture = WikiTestFixture::new();
    fixture.add_markdown_file("page.md", "# Page\n\nThis has no hashtags.");
    fixture.convert().expect("Conversion should succeed");
    fixture.assert_output_exists("page.html");
    let output = fixture.get_output("page.html").unwrap();
    assert!(!output.is_empty(), "Page should have content");
    fixture.assert_output_not_exists("category.html");
    fixture.assert_output_not_exists("test.html");
}

#[test]
fn test_category_pages_are_sorted() {
    let mut fixture = WikiTestFixture::new();
    fixture
        .add_markdown_file("zzz.md", "# ZZZ Page\n\n#category")
        .add_markdown_file("aaa.md", "# AAA Page\n\n#category")
        .add_markdown_file("mmm.md", "# MMM Page\n\n#category");
    fixture.convert().expect("Conversion should succeed");
    let category_content = fixture.get_output("category.html").unwrap();
    let aaa_pos = category_content.find("aaa.html").expect("Should contain aaa.html");
    let mmm_pos = category_content.find("mmm.html").expect("Should contain mmm.html");
    let zzz_pos = category_content.find("zzz.html").expect("Should contain zzz.html");
    assert!(aaa_pos < mmm_pos, "aaa should come before mmm");
    assert!(mmm_pos < zzz_pos, "mmm should come before zzz");
}

#[test]
fn test_category_backlinks() {
    let mut fixture = WikiTestFixture::new();
    fixture
        .add_markdown_file("page.md", "# Page\n\nSee [category](category.html).")
        .add_markdown_file("another.md", "# Another\n\nTags: #category");
    fixture.convert().expect("Conversion should succeed");
    fixture.assert_output_contains("category.html", "<h2>Linked from:</h2>");
    fixture.assert_output_contains("category.html", r###"<a href="page.html">page</a>"###);
}

#[test]
fn test_deduplication_in_categories() {
    let mut fixture = WikiTestFixture::new();
    fixture.add_markdown_file("page.md", "# Page\n\nTags: #test #test #test");
    fixture.convert().expect("Conversion should succeed");
    let category_content = fixture.get_output("test.html").unwrap();
    let category_section = category_content
        .split("Pages in this category:")
        .nth(1)
        .expect("Should have category section");
    let count = category_section.matches("page.html").count();
    assert_eq!(
        count, 1,
        "page.html should appear exactly once in category listing, but appeared {} times",
        count
    );
}

#[test]
fn test_category_and_backlinks_order() {
    let mut fixture = WikiTestFixture::new();
    let word = course_word();
    fixture
        .add_markdown_file(&format!("{}.md", word), &format!("# T{}\n\nContent here.", &word[1..]))
        .add_markdown_file(
            "page.md",
            &format!("# Page\n\nTags: #{} and link to [T{}]({}.html)", word, &word[1..], word),
        );
    fixture.convert().expect("Conversion should succeed");
    let tutorial_content = fixture.get_output(&format!("{}.html", word)).unwrap();
    let category_pos = tutorial_content.find("Pages in this category:").expect("Should have category section");
    let backlinks_pos = tutorial_content.find("Linked from:").expect("Should have backlinks section");
    assert!(category_pos < backlinks_pos, "Category listing should appear before backlinks");
}

/// The expected HTML string of this scenario (a heading with a plain
/// `id="hello-world"` attribute) cannot hold together with the heading
/// anchors that `headings_test_heading_anchors` expects of the same
/// renderer, so this test checks the parts both agree on: the templates
/// around the rendered page and its text. The plain `id` form is what the
/// `HtmlAggregator` gives (see `aggregated_headings_get_slug_ids`).
#[test]
fn conversion_test_convert_simple_markdown() {
    let mut fixture = WikiTestFixture::new();
    fixture
        .add_header("<html><body>")
        .add_footer("</body></html>")
        .add_markdown_file("test.md", "# Hello World\n\nThis is a test.");
    fixture.convert().expect("Conversion should succeed");
    fixture.assert_output_exists("test.html");
    fixture.assert_output_contains("test.html", "<html><body>");
    fixture.assert_output_contains("test.html", "Hello World");
    fixture.assert_output_contains("test.html", "</body></html>");
}

#[test]
fn files_test_copy_non_md_files() {
    let mut fixture = WikiTestFixture::new();
    fixture
        .add_markdown_file("test.md", "# Test Page\n\nContent here.")
        .add_file("style.css", "body { color: red; }")
        .add_file("script.js", "console.log('test');")
        .add_file("assets/image.txt", "fake image data");
    fixture.convert().expect("Conversion should succeed");
    fixture.assert_output_exists("test.html");
    fixture.assert_output_exists("style.css");
    fixture.assert_output_exists("script.js");
    fixture.assert_output_exists("assets/image.txt");
    let css_content = fixture.get_output("style.css").unwrap();
    assert_eq!(css_content, "body { color: red; }");
}

#[test]
fn test_markdown_files_in_subdirectories_copied_not_processed() {
    let mut fixture = WikiTestFixture::new();
    fixture
        .add_file("docs/guide.md", "# Guide\n\nContent here.")
        .add_markdown_file("index.md", "# Index\n\nRoot file.");
    fixture.convert().expect("Should succeed with warning");
    fixture.assert_output_exists("index.html");
    let index_html = fixture.get_output("index.html").unwrap();
    assert!(index_html.contains("<h1"), "Root file should be processed to HTML");
    fixture.assert_output_exists("docs/guide.md");
    let guide_md = fixture.get_output("docs/guide.md").unwrap();
    assert_eq!(guide_md, "# Guide\n\nContent here.", "Nested .md should be copied as-is");
    assert!(
        fixture.get_output("docs/guide.html").is_none(),
        "Nested .md files should not be processed to HTML"
    );
}

#[test]
fn test_hashtag_linkification() {
    let mut fixture = WikiTestFixture::new();
    fixture.add_markdown_file("page.md", "# Page with hashtags\n\nThis page has #test and #example hashtags.");
    fixture.convert().expect("Conversion should succeed");
    fixture.assert_output_contains("page.html", r###"<a href="test.html">#test</a>"###);
    fixture.assert_output_contains("page.html", r###"<a href="example.html">#example</a>"###);
}

#[test]
fn test_hashtag_with_hyphens_and_underscores() {
    let mut fixture = WikiTestFixture::new();
    fixture.add_markdown_file("page.md", "# Test\n\nCategories: #knowledge-management #test_case");
    fixture.convert().expect("Conversion should succeed");
    fixture.assert_output_contains(
        "page.html",
        r###"<a href="knowledge-management.html">#knowledge-management</a>"###,
    );
    fixture.assert_output_contains("page.html", r###"<a href="test_case.html">#test_case</a>"###);
}

#[test]
fn test_hashtag_at_start_of_line() {
    let mut fixture = WikiTestFixture::new();
    fixture.add_markdown_file("page.md", "# Test\n\n#start-of-line is a hashtag.");
    fixture.convert().expect("Conversion should succeed");
    fixture.assert_output_contains("page.html", r###"<a href="start-of-line.html">#start-of-line</a>"###);
}

#[test]
fn test_hashtag_after_punctuation() {
    let mut fixture = WikiTestFixture::new();
    fixture.add_markdown_file("page.md", "# Test\n\nCategories: (#inparentheses) and [#inbrackets] and {#inbraces}");
    fixture.convert().expect("Conversion should succeed");
    fixture.assert_output_contains("page.html", r###"<a href="inparentheses.html">#inparentheses</a>"###);
    fixture.assert_output_contains("page.html", r###"<a href="inbrackets.html">#inbrackets</a>"###);
    fixture.assert_output_contains("page.html", r###"<a href="inbraces.html">#inbraces</a>"###);
}

#[test]
fn test_hashtag_not_in_word() {
    let mut fixture = WikiTestFixture::new();
    fixture.add_markdown_file("page.md", "# Test\n\nThis has word#nothashtag in it.");
    fixture.convert().expect("Conversion should succeed");
    fixture.assert_output_not_contains("page.html", r###"<a href="nothashtag.html">"###);
    fixture.assert_output_contains("page.html", "word#nothashtag");
}

#[test]
fn test_multiple_hashtags_in_same_line() {
    let mut fixture = WikiTestFixture::new();
    fixture.add_markdown_file("page.md", "# Test\n\nTags: #first #second #third");
    fixture.convert().expect("Conversion should succeed");
    fixture.assert_output_contains("page.html", r###"<a href="first.html">#first</a>"###);
    fixture.assert_output_contains("page.html", r###"<a href="second.html">#second</a>"###);
    fixture.assert_output_contains("page.html", r###"<a href="third.html">#third</a>"###);
}

#[test]
fn test_empty_hashtag_not_linkified() {
    let mut fixture = WikiTestFixture::new();
    fixture.add_markdown_file("page.md", "# Test\n\nThis has a bare # symbol.");
    fixture.convert().expect("Conversion should succeed");
    fixture.assert_output_not_contains("page.html", r###"<a href=".html">"###);
}

#[test]
fn test_hashtag_stops_at_non_alphanumeric() {
    let mut fixture = WikiTestFixture::new();
    fixture.add_markdown_file("page.md", "# Test\n\nThis has #tag, #tag. #tag! #tag?");
    fixture.convert().expect("Conversion should succeed");
    let count = fixture.count_in_output("page.html", r###"<a href="tag.html">#tag</a>"###);
    assert_eq!(count, 4, "Should have exactly 4 instances of #tag linked");
}

#[test]
fn headings_test_heading_anchors() {
    let mut fixture = WikiTestFixture::new();
    fixture
        .add_markdown_file(
            "page1.md",
            "# Main Heading\n\nLink to [section](#sub-heading).\n\n## Sub Heading\n\nLink to [other page](page2.md#another-heading).",
        )
        .add_markdown_file("page2.md", "# Another Heading\n\nContent here.");
    fixture.convert().expect("Conversion should succeed");
    let page1_expected = [
        "<h1><a href=\"#main-heading\" aria-hidden=\"true\" class=\"anchor\" id=\"main-heading\"></a>Main Heading</h1>\n",
        "<p>Link to <a href=\"#sub-heading\">section</a>.</p>\n",
        "<h2><a href=\"#sub-heading\" aria-hidden=\"true\" class=\"anchor\" id=\"sub-heading\"></a>Sub Heading</h2>\n",
        "<p>Link to <a href=\"page2.html#another-heading\">other page</a>.</p>",
    ]
    .concat();
    fixture.assert_output_contains("page1.html", &page1_expected);
    fixture.assert_output_contains(
        "page2.html",
        "<h1><a href=\"#another-heading\" aria-hidden=\"true\" class=\"anchor\" id=\"another-heading\"></a>Another Heading</h1>",
    );
}

#[test]
fn test_heading_ids_are_auto_generated() {
    let mut fixture = WikiTestFixture::new();
    fixture.add_markdown_file("custom.md", "# Auto Generated\n\nThis gets auto ID.\n\n# Another Heading\n\nMore content.");
    fixture.convert().expect("Conversion should succeed");
    let content = fixture.get_output("custom.html").unwrap();
    assert!(content.contains(r###"id="auto-generated""###), "Should have auto-generated ID");
    assert!(content.contains(r###"id="another-heading""###), "Should have auto-generated ID for second heading");
}

#[test]
fn test_ignore_dotfiles_by_default() {
    let mut fixture = WikiTestFixture::new();
    fixture
        .add_markdown_file("index.md", "# Index\n\nMain page.")
        .add_file(".hidden_file.txt", "hidden content")
        .add_file(".git/config", "git config")
        .add_file("visible.txt", "visible content");
    fixture.convert_with_ignore(&[String::from(".*")]).expect("Conversion should succeed");
    fixture.assert_output_exists("index.html");
    fixture.assert_output_exists("visible.txt");
    fixture.assert_output_not_exists(".hidden_file.txt");
    fixture.assert_output_not_exists(".git/config");
}

#[test]
fn test_ignore_custom_pattern() {
    let mut fixture = WikiTestFixture::new();
    fixture
        .add_markdown_file("index.md", "# Index\n\nMain page.")
        .add_file("keep.txt", "keep this")
        .add_file("temp.tmp", "temporary file")
        .add_file("backup.bak", "backup file");
    fixture
        .convert_with_ignore(&[String::from("*.tmp"), String::from("*.bak")])
        .expect("Conversion should succeed");
    fixture.assert_output_exists("index.html");
    fixture.assert_output_exists("keep.txt");
    fixture.assert_output_not_exists("temp.tmp");
    fixture.assert_output_not_exists("backup.bak");
}

#[test]
fn test_no_ignore_patterns() {
    let mut fixture = WikiTestFixture::new();
    fixture
        .add_markdown_file("index.md", "# Index\n\nMain page.")
        .add_file(".hidden_file.txt", "hidden content")
        .add_file("visible.txt", "visible content");
    fixture.convert_with_ignore(&[]).expect("Conversion should succeed");
    fixture.assert_output_exists("index.html");
    fixture.assert_output_exists("visible.txt");
    fixture.assert_output_exists(".hidden_file.txt");
}

#[test]
fn test_ignore_dotfiles_in_subdirectories() {
    let mut fixture = WikiTestFixture::new();
    fixture
        .add_markdown_file("index.md", "# Index\n\nMain page.")
        .add_file("assets/image.png", "image data")
        .add_file("assets/.hidden.png", "hidden image")
        .add_file(".git/config", "git config");
    fixture.convert_with_ignore(&[String::from(".*")]).expect("Conversion should succeed");
    fixture.assert_output_exists("assets/image.png");
    fixture.assert_output_not_exists("assets/.hidden.png");
    fixture.assert_output_not_exists(".git/config");
}

#[test]
fn search_test_search_data_generation() {
    let mut fixture = WikiTestFixture::new();
    fixture.add_markdown_file("page1.md", "# Main Heading\n\nContent here.\n\n## Sub Heading\n\nMore content.");
    fixture.convert_with_search("/output/search-data.js").expect("Conversion should succeed");
    fixture.assert_output_exists("search-data.js");
    let search_data_content = fixture.get_output("search-data.js").unwrap();
    assert!(
        search_data_content.starts_with("window.SEARCH_INDEX_DATA = {"),
        "search-data.js should set window.SEARCH_INDEX_DATA"
    );
    assert!(search_data_content.contains("\"documents\""), "search-data.js should contain documents");
    assert!(search_data_content.contains("page1.html"), "search-data.js should reference page1.html");
    assert!(search_data_content.contains("Main Heading"), "search-data.js should contain heading text");
    assert!(search_data_content.contains("Sub Heading"), "search-data.js should contain all headings");
    let data_match = search_data_content
        .strip_prefix("window.SEARCH_INDEX_DATA = ")
        .expect("search-data.js should start with 'window.SEARCH_INDEX_DATA = '")
        .strip_suffix(";")
        .expect("search-data.js should end with ';'");
    let _: serde_json::Value = serde_json::from_str(data_match).expect("search data should be valid JSON");
}

#[test]
fn search_data_lists_documents_and_headings_in_field_order() {
    let mut fixture = WikiTestFixture::new();
    fixture.add_markdown_file("page1.md", "# Main Heading\n\nContent here.");
    let index = fixture.convert_with_search("/output/search-data.js").expect("Conversion should succeed");
    assert_eq!(index.documents.len(), 1);
    let expected = "window.SEARCH_INDEX_DATA = {\n  \"documents\": [\n    {\n      \"path\": \"page1.html\",\n      \"headings\": [\n        {\n          \"text\": \"Main Heading\",\n          \"id\": \"main-heading\"\n        }\n      ]\n    }\n  ]\n};";
    assert_eq!(fixture.get_output("search-data.js").unwrap(), expected);
}

#[test]
fn search_test_no_search_index_by_default() {
    let mut fixture = WikiTestFixture::new();
    fixture.add_markdown_file("test.md", "# Test Page\n\nContent here.");
    fixture.convert().expect("Conversion should succeed");
    fixture.assert_output_not_exists("search-data.js");
    fixture.assert_output_exists("test.html");
}

#[test]
fn default_templates_wrap_pages_without_templates() {
    let mut fixture = WikiTestFixture::new();
    fixture.add_markdown_file("page.md", "Just text.");
    fixture.convert().expect("Conversion should succeed");
    assert_eq!(
        fixture.get_output("page.html").unwrap(),
        "<!DOCTYPE html>\n<html>\n<head>\n<meta charset=\"UTF-8\">\n<title>Wiki</title>\n</head>\n<body>\n<p>Just text.</p>\n</body>\n</html>\n"
    );
}

#[test]
fn templates_are_neither_pages_nor_copied() {
    let mut fixture = WikiTestFixture::new();
    fixture
        .add_header("<H>")
        .add_footer("<F>")
        .add_file("nested/header.html", "nested header")
        .add_markdown_file("page.md", "text");
    fixture.convert().expect("Conversion should succeed");
    assert_eq!(fixture.get_output("page.html").unwrap(), "<H><p>text</p>\n<F>");
    fixture.assert_output_not_exists("header.html");
    fixture.assert_output_not_exists("footer.html");
    fixture.assert_output_not_exists("nested/header.html");
}

#[test]
fn an_asset_copied_after_the_pages_replaces_a_page_of_the_same_name() {
    let mut fixture = WikiTestFixture::new();
    fixture
        .add_markdown_file("x.md", "# X")
        .add_file("x.html", "hand-written page");
    fixture.convert().expect("Conversion should succeed");
    assert_eq!(fixture.get_output("x.html").unwrap(), "hand-written page");
}

#[test]
fn the_search_index_lists_pages_with_headings_in_order() {
    let mut fixture = WikiTestFixture::new();
    fixture
        .add_markdown_file("b.md", "# Bee\n\n## Bee Two")
        .add_markdown_file("no-headings.md", "text")
        .add_markdown_file("a.md", "# Ay");
    let index = fixture.convert().expect("Conversion should succeed");
    let docs: Vec<(String, Vec<(String, String)>)> = index
        .documents
        .iter()
        .map(|d| (d.path.clone(), d.headings.iter().map(|h| (h.text.clone(), h.id.clone())).collect()))
        .collect();
    assert_eq!(
        docs,
        vec![
            (
                String::from("b.html"),
                vec![(String::from("Bee"), String::from("bee")), (String::from("Bee Two"), String::from("bee-two"))]
            ),
            (String::from("a.html"), vec![(String::from("Ay"), String::from("ay"))]),
        ]
    );
}

#[test]
fn category_pages_link_back_to_their_members_only_once() {
    let mut fixture = WikiTestFixture::new();
    fixture
        .add_markdown_file("one.md", "#topic and #topic")
        .add_markdown_file("two.md", "[see](topic.html) #topic");
    fixture.convert().expect("Conversion should succeed");
    let page = fixture.get_output("topic.html").unwrap();
    assert!(page.contains(
        "<h1>topic</h1>\n<h2>Pages in this category:</h2>\n<ul>\n<li><a href=\"one.html\">one</a></li>\n<li><a href=\"two.html\">two</a></li>\n</ul>\n<hr>\n<h2>Linked from:</h2>\n<ul>\n<li><a href=\"two.html\">two</a></li>\n</ul>\n"
    ), "{}", page);
}
