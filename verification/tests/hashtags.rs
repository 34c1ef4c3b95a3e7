use md_wiki::hashtag_linker::{hashtag_link, hashtag_segments, Segment};
use md_wiki::hashtag_parser::parse_hashtags;

fn tags(text: &str) -> Vec<(usize, usize, String)> {
    parse_hashtags(text).into_iter().map(|t| (t.start, t.end, t.category)).collect()
}

fn shown(text: &str) -> Vec<(bool, String)> {
    hashtag_segments(text)
        .into_iter()
        .map(|s| match s {
            Segment::Text(t) => (false, t),
            Segment::Tag(c) => (true, c),
        })
        .collect()
}

#[test]
fn hashtags_with_byte_offsets() {
    assert_eq!(
        tags("#a b #c-d (#e_f) x#no # end"),
        vec![(0, 2, String::from("a")), (5, 9, String::from("c-d")), (11, 15, String::from("e_f"))]
    );
}

#[test]
fn hashtags_after_brackets_and_whitespace() {
    assert_eq!(
        tags("[#x]\t#y\n{#z}"),
        vec![(1, 3, String::from("x")), (5, 7, String::from("y")), (9, 11, String::from("z"))]
    );
}

#[test]
fn hashtags_offsets_count_utf8_bytes() {
    assert_eq!(tags("é #tag"), vec![(3, 7, String::from("tag"))]);
    assert_eq!(tags("#ünï!"), vec![(0, 6, String::from("ünï"))]);
}

#[test]
fn no_hashtag_without_category_or_in_word() {
    assert!(tags("# heading-like").is_empty());
    assert!(tags("word#tag").is_empty());
    assert!(tags("").is_empty());
    assert!(tags("##").is_empty());
}

#[test]
fn hashtag_after_hash_is_not_a_hashtag() {
    assert!(tags("##tag").is_empty());
}

#[test]
fn segments_split_text_around_hashtags() {
    assert_eq!(
        shown("Tags: #first #second."),
        vec![
            (false, String::from("Tags: ")),
            (true, String::from("first")),
            (false, String::from(" ")),
            (true, String::from("second")),
            (false, String::from(".")),
        ]
    );
    assert_eq!(shown("#only"), vec![(true, String::from("only"))]);
    assert_eq!(shown("plain"), vec![(false, String::from("plain"))]);
}

#[test]
fn segments_show_the_text_again() {
    for text in ["a #b c", "#x#y #z!", "(#p) [#q] {#r}", "no tags", ""] {
        let mut again = String::new();
        for (is_tag, s) in shown(text) {
            if is_tag {
                again.push('#');
            }
            again.push_str(&s);
        }
        assert_eq!(again, text);
    }
}

#[test]
fn hashtag_links_lead_to_category_pages() {
    assert_eq!(
        hashtag_link("knowledge-management"),
        (String::from("knowledge-management.html"), String::from("#knowledge-management"))
    );
    assert_eq!(hashtag_link("é"), (String::from("é.html"), String::from("#é")));
}
