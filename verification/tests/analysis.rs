use md_wiki::analyzer::{Analyzer, AstItem};
use md_wiki::link_translator::translate_nodes;
use md_wiki::markdown::NodeKind;
use md_wiki::sorted_set_map::SortedSetMap;

fn listing(m: &SortedSetMap, key: &str) -> Vec<String> {
    m.get(key).cloned().unwrap_or_default()
}

fn page_items(links: &[&str], texts: &[&str]) -> Vec<AstItem> {
    let mut items = Vec::new();
    for l in links {
        items.push(AstItem::Link(l.to_string()));
    }
    for t in texts {
        items.push(AstItem::Text(t.to_string()));
    }
    items
}

#[test]
fn sorted_set_map_keeps_keys_and_members_sorted_without_duplicates() {
    let mut m = SortedSetMap::new();
    assert_eq!(m.len(), 0);
    m.insert("b", "y");
    m.insert("a", "x");
    m.insert("b", "x");
    m.insert("b", "y");
    assert_eq!(m.len(), 2);
    assert_eq!(m.keys(), vec![String::from("a"), String::from("b")]);
    assert_eq!(listing(&m, "b"), vec![String::from("x"), String::from("y")]);
    assert_eq!(listing(&m, "a"), vec![String::from("x")]);
    assert!(m.get("c").is_none());
}

#[test]
fn analyzer_records_page_links_only() {
    let mut a = Analyzer::new();
    a.set_current_file(String::from("page1.md"));
    a.analyze_items(&page_items(
        &["page2.html#x", "page2.html", "https://example.com/a.html", "//cdn.example.com/b.html", "image.png", "#local"],
        &[],
    ));
    let b = a.get_backlinks();
    assert_eq!(b.keys(), vec![String::from("page2.html")]);
    assert_eq!(listing(b, "page2.html"), vec![String::from("page1.md")]);
}

#[test]
fn analyzer_records_categories_from_hashtags() {
    let mut a = Analyzer::new();
    a.set_current_file(String::from("notes.md"));
    a.analyze_items(&page_items(&[], &["Categories: #knowledge-management #learning", "#learning again"]));
    let c = a.get_categories();
    assert_eq!(c.keys(), vec![String::from("knowledge-management"), String::from("learning")]);
    assert_eq!(listing(c, "learning"), vec![String::from("notes.md")]);
}

#[test]
fn analyzer_builds_the_search_index() {
    let mut a = Analyzer::new();
    a.set_current_file(String::from("page1.md"));
    a.analyze_items(&vec![
        AstItem::Heading(String::from("Main Heading"), String::from("main-heading")),
        AstItem::Heading(String::from("Sub Heading"), String::from("sub-heading")),
    ]);
    a.set_current_file(String::from("empty.md"));
    a.set_current_file(String::from("page2.md"));
    a.analyze_items(&vec![AstItem::Heading(String::from("Other"), String::from("other"))]);
    let index = a.finalize();
    assert_eq!(index.documents.len(), 2);
    assert_eq!(index.documents[0].path, "page1.html");
    assert_eq!(index.documents[0].headings.len(), 2);
    assert_eq!(index.documents[0].headings[1].text, "Sub Heading");
    assert_eq!(index.documents[0].headings[1].id, "sub-heading");
    assert_eq!(index.documents[1].path, "page2.html");
    assert_eq!(index.documents[1].headings[0].id, "other");
}

#[test]
fn analyzer_without_headings_gives_an_empty_index() {
    let mut a = Analyzer::new();
    a.set_current_file(String::from("page.md"));
    let index = a.finalize();
    assert!(index.documents.is_empty());
}

#[test]
fn analysis_order_does_not_change_backlinks_or_categories() {
    let run = |first: (&str, Vec<AstItem>), second: (&str, Vec<AstItem>)| {
        let mut a = Analyzer::new();
        a.set_current_file(first.0.to_string());
        a.analyze_items(&first.1);
        a.set_current_file(second.0.to_string());
        a.analyze_items(&second.1);
        let b = a.get_backlinks();
        let c = a.get_categories();
        let bl: Vec<(String, Vec<String>)> = b.keys().into_iter().map(|k| (k.clone(), listing(b, &k))).collect();
        let cs: Vec<(String, Vec<String>)> = c.keys().into_iter().map(|k| (k.clone(), listing(c, &k))).collect();
        (bl, cs)
    };
    let zzz = || ("zzz.md", page_items(&["aaa.html"], &["#shared #z"]));
    let aaa = || ("aaa.md", page_items(&["zzz.html", "aaa.html"], &["#shared"]));
    let one = run(zzz(), aaa());
    let two = run(aaa(), zzz());
    assert_eq!(one, two);
    assert_eq!(one.0[0], (String::from("aaa.html"), vec![String::from("aaa.md"), String::from("zzz.md")]));
    assert_eq!(one.1[0], (String::from("shared"), vec![String::from("aaa.md"), String::from("zzz.md")]));
}

#[test]
fn analyze_ast_reads_links_texts_and_headings_with_unique_anchors() {
    let mut a = Analyzer::new();
    a.set_current_file(String::from("p.md"));
    let nodes = vec![
        NodeKind::Heading(String::from("Stuff")),
        NodeKind::Text(String::from("Stuff")),
        NodeKind::Heading(String::from("Stuff")),
        NodeKind::Link(String::from("a.md#x")),
        NodeKind::Image(String::from("b.html")),
        NodeKind::Text(String::from("see #t")),
        NodeKind::Other,
    ];
    a.analyze_ast(&translate_nodes(&nodes));
    assert_eq!(a.get_backlinks().keys(), vec![String::from("a.html")]);
    assert_eq!(a.get_categories().keys(), vec![String::from("t")]);
    let index = a.finalize();
    let ids: Vec<&str> = index.documents[0].headings.iter().map(|h| h.id.as_str()).collect();
    assert_eq!(ids, vec!["stuff", "stuff-1"]);
}

#[test]
fn translate_nodes_translates_link_and_image_targets_only() {
    let nodes = vec![
        NodeKind::Link(String::from("a.md")),
        NodeKind::Image(String::from("i.md#f")),
        NodeKind::Text(String::from("b.md")),
        NodeKind::Heading(String::from("c.md")),
    ];
    let out = translate_nodes(&nodes);
    assert!(matches!(&out[0], NodeKind::Link(u) if u == "a.html"));
    assert!(matches!(&out[1], NodeKind::Image(u) if u == "i.html#f"));
    assert!(matches!(&out[2], NodeKind::Text(t) if t == "b.md"));
    assert!(matches!(&out[3], NodeKind::Heading(t) if t == "c.md"));
}
