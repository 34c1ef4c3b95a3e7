use md_wiki::html_aggregator::{heading_ids, EventKind, HtmlAggregator};
use pulldown_cmark::{Options, Parser};

fn render(markdown: &str) -> String {
    let mut options = Options::empty();
    options.insert(Options::ENABLE_STRIKETHROUGH);
    options.insert(Options::ENABLE_TABLES);
    options.insert(Options::ENABLE_HEADING_ATTRIBUTES);
    let mut aggregator = HtmlAggregator::new();
    for event in Parser::new_ext(markdown, options) {
        aggregator = aggregator.ingest(event.into_static());
    }
    aggregator.to_html_string()
}

#[test]
fn test_custom_heading_ids() {
    let content = render(
        "# Auto Generated\n\nThis gets auto ID.\n\n# Custom ID {#my-custom-id}\n\nThis has custom ID.\n\n## Another Auto {#also-custom}",
    );
    assert!(content.contains(r#"id="auto-generated""#), "Should have auto-generated ID");
    assert!(content.contains(r#"id="my-custom-id""#), "Should have custom ID");
    assert!(content.contains(r#"id="also-custom""#), "Should have custom ID for h2");
    assert!(!content.contains(r#"id="custom-id""#), "Should not auto-generate when custom ID exists");
}

#[test]
fn aggregated_headings_get_slug_ids() {
    let html = render("# Hello World\n\nThis is a test.");
    assert_eq!(html, "<h1 id=\"hello-world\">Hello World</h1>\n<p>This is a test.</p>\n");
}

#[test]
fn heading_ids_use_the_text_up_to_the_heading_end() {
    let kinds = vec![
        EventKind::HeadingStart(false),
        EventKind::Text(String::from("Sub ")),
        EventKind::Other,
        EventKind::Text(String::from("Heading")),
        EventKind::HeadingEnd,
        EventKind::Text(String::from("after")),
        EventKind::HeadingStart(true),
        EventKind::Text(String::from("Explicit")),
        EventKind::HeadingEnd,
        EventKind::HeadingStart(false),
        EventKind::HeadingEnd,
    ];
    let ids = heading_ids(&kinds);
    assert_eq!(ids.len(), kinds.len());
    assert_eq!(ids[0], Some(String::from("sub-heading")));
    for i in 1..kinds.len() {
        assert_eq!(ids[i], None, "position {}", i);
    }
}
