use md_wiki::analyzer::Analyzer;
use md_wiki::hashtag_linker::linkify_hashtags;
use md_wiki::link_translator::{translate_links, translate_nodes};
use md_wiki::markdown::{wiki_markdown_options, MarkdownDoc};
use md_wiki::filesystem::WikiError;
use md_wiki::sorted_set_map::SortedSetMap;
use md_wiki::wiki::{
    asset_paths, assemble_site, category_page, default_footer_html, default_header_html, plan_inputs, render_page,
    search_data_script, source_page,
};

fn chars(s: &str) -> Vec<char> {
    s.chars().collect()
}

#[test]
fn plan_sorts_pages_assets_and_templates() {
    let paths: Vec<String> = [
        "/input/index.md",
        "/input/header.html",
        "/input/style.css",
        "/input/docs/guide.md",
        "/input/docs/footer.html",
        "/input/README.MD",
    ]
    .iter()
    .map(|s| s.to_string())
    .collect();
    let plan = plan_inputs(&paths, "/input").expect("all files lie under the input");
    assert_eq!(plan.pages, vec![(String::from("/input/index.md"), String::from("index.md"))]);
    let assets: Vec<(String, Vec<String>)> = plan
        .assets
        .iter()
        .map(|(p, rel)| (p.clone(), rel.iter().map(|c| c.iter().collect()).collect()))
        .collect();
    assert_eq!(
        assets,
        vec![
            (String::from("/input/style.css"), vec![String::from("style.css")]),
            (String::from("/input/docs/guide.md"), vec![String::from("docs"), String::from("guide.md")]),
            (String::from("/input/README.MD"), vec![String::from("README.MD")]),
        ]
    );
}

#[test]
fn plan_refuses_a_file_outside_the_input() {
    let paths = vec![String::from("/input/a.md"), String::from("/elsewhere/b.md")];
    match plan_inputs(&paths, "/input") {
        Err(WikiError::NotUnderInput(p)) => assert_eq!(p, "/elsewhere/b.md"),
        _ => panic!("expected NotUnderInput"),
    }
}

#[test]
fn asset_destinations_keep_the_directory_structure() {
    let (dir, dest) = asset_paths("/output", &vec![chars("assets"), chars("img"), chars("a.png")]);
    assert_eq!(dir, "/output/assets/img");
    assert_eq!(dest, "/output/assets/img/a.png");
    let (dir, dest) = asset_paths("/output", &vec![chars("style.css")]);
    assert_eq!(dir, "/output");
    assert_eq!(dest, "/output/style.css");
}

#[test]
fn search_data_frames_the_json() {
    assert_eq!(search_data_script("{}"), "window.SEARCH_INDEX_DATA = {};");
}

#[test]
fn default_templates_open_and_close_the_page() {
    assert_eq!(
        default_header_html(),
        "<!DOCTYPE html>\n<html>\n<head>\n<meta charset=\"UTF-8\">\n<title>Wiki</title>\n</head>\n<body>\n"
    );
    assert_eq!(default_footer_html(), "</body>\n</html>\n");
}

#[test]
fn a_source_page_has_its_listing_then_its_backlinks() {
    let mut backlinks = SortedSetMap::new();
    backlinks.insert("topic.html", "b.md");
    backlinks.insert("topic.html", "a.md");
    let mut categories = SortedSetMap::new();
    categories.insert("topic", "c.md");
    let (name, page) = source_page("<H>", "<F>", "topic.md", "<p>body</p>\n", &backlinks, &categories);
    assert_eq!(name, "topic.html");
    assert_eq!(
        page,
        "<H><p>body</p>\n\
         <h2>Pages in this category:</h2>\n<ul>\n<li><a href=\"c.html\">c</a></li>\n</ul>\n\
         <hr>\n<h2>Linked from:</h2>\n<ul>\n<li><a href=\"a.html\">a</a></li>\n<li><a href=\"b.html\">b</a></li>\n</ul>\n\
         <F>"
    );
}

#[test]
fn a_page_without_listing_or_backlinks_is_header_body_footer() {
    let empty = SortedSetMap::new();
    let (name, page) = source_page("<H>", "<F>", "plain.md", "body", &empty, &empty);
    assert_eq!(name, "plain.html");
    assert_eq!(page, "<H>body<F>");
}

#[test]
fn a_generated_category_page_has_a_title() {
    let empty = SortedSetMap::new();
    let mut categories = SortedSetMap::new();
    categories.insert("rust", "x.md.md");
    let (name, page) = category_page("<H>", "<F>", "rust", &empty, &categories);
    assert_eq!(name, "rust.html");
    assert_eq!(
        page,
        "<H><h1>rust</h1>\n<h2>Pages in this category:</h2>\n<ul>\n<li><a href=\"x.html\">x</a></li>\n</ul>\n<F>"
    );
}

#[test]
fn the_site_is_the_pages_then_the_missing_category_pages() {
    let backlinks = SortedSetMap::new();
    let mut categories = SortedSetMap::new();
    categories.insert("zeta", "b.md");
    categories.insert("alpha", "b.md");
    categories.insert("a", "b.md");
    let pages = vec![(String::from("a.md"), String::from("A")), (String::from("b.md"), String::from("B"))];
    let site = assemble_site("", "", &pages, &backlinks, &categories);
    let names: Vec<&str> = site.iter().map(|(n, _)| n.as_str()).collect();
    assert_eq!(names, vec!["a.html", "b.html", "alpha.html", "zeta.html"]);
    assert!(site[0].1.starts_with("A<h2>Pages in this category:</h2>"));
    assert_eq!(site[1].1, "B");
}

#[test]
fn rendering_translates_links_records_them_and_links_hashtags() {
    let mut analyzer = Analyzer::new();
    let body = render_page(&mut analyzer, String::from("p.md"), "# Title\n\nSee [other](other.md#part) and #topic.");
    assert!(body.contains("<a href=\"other.html#part\">other</a>"), "{}", body);
    assert!(body.contains("<a href=\"topic.html\">#topic</a>"), "{}", body);
    assert!(body.contains("id=\"title\""), "{}", body);
    let b = analyzer.get_backlinks();
    assert_eq!(b.keys(), vec![String::from("other.html")]);
    let c = analyzer.get_categories();
    assert_eq!(c.keys(), vec![String::from("topic")]);
    let index = analyzer.finalize();
    assert_eq!(index.documents[0].path, "p.html");
    assert_eq!(index.documents[0].headings[0].text, "Title");
    assert_eq!(index.documents[0].headings[0].id, "title");
}

#[test]
fn editing_a_document_translates_links_and_links_hashtags() {
    let arena = typed_arena::Arena::new();
    let mut doc = MarkdownDoc::parse(&arena, "See [a](x.md) and (#tag) here.\n\n# No tags", &wiki_markdown_options());
    let nodes = doc.read_nodes();
    translate_links(&mut doc, &nodes);
    let translated = translate_nodes(&nodes);
    linkify_hashtags(&mut doc, &translated);
    let html = doc.render();
    assert!(html.contains("<a href=\"x.html\">a</a>"), "{}", html);
    assert!(html.contains("and (<a href=\"tag.html\">#tag</a>) here."), "{}", html);
    assert!(html.contains("No tags</h1>"), "{}", html);
}

#[test]
fn linking_hashtags_leaves_a_document_without_hashtags_as_it_is() {
    let arena = typed_arena::Arena::new();
    let mut doc = MarkdownDoc::parse(&arena, "Plain text, issue # 5 and a#b.", &wiki_markdown_options());
    let before = doc.render();
    let nodes = doc.read_nodes();
    linkify_hashtags(&mut doc, &nodes);
    assert_eq!(doc.render(), before);
    assert!(before.contains("issue # 5 and a#b."), "{}", before);
}
