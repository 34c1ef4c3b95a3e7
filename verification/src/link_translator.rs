//! Translation of links to markdown sources into links to generated pages.
use vstd::prelude::*;
use crate::markdown::{MarkdownDoc, NodeKind, NodeInfo, Edit, edited};
use crate::text::{
    ends_with, char_pos, lemma_char_pos, str_chars, chars_pos, chars_ends_with, sub_chars, push_all, string_from_chars,
    str_to_string,
};

verus! {

/// The suffix of markdown sources.
pub open spec fn md_ext() -> Seq<char> {
    seq!['.', 'm', 'd']
}

/// The suffix of generated pages.
pub open spec fn html_ext() -> Seq<char> {
    seq!['.', 'h', 't', 'm', 'l']
}

/// The URL that a link to `url` becomes: the part before the first `#`
/// (the whole URL when it has none) loses a final `.md` for `.html`; the
/// fragment from that `#` on is kept. URLs whose path does not end with
/// `.md` are unchanged.
pub open spec fn translated_url(url: Seq<char>) -> Seq<char> {
    let h = char_pos(url, '#');
    let path = url.take(h);
    if ends_with(path, md_ext()) {
        path.take(path.len() - 3) + html_ext() + url.skip(h)
    } else {
        url
    }
}

/// Translates a `.md` link target into the `.html` page generated from it,
/// keeping any `#fragment`.
pub fn translate_url(url: &str) -> (r: String)
    ensures
        r@ == translated_url(url@),
{
    let u = str_chars(url);
    let h = chars_pos(&u, '#');
    proof {
        lemma_char_pos(u@, '#');
    }
    let path = sub_chars(&u, 0, h);
    let md: Vec<char> = vec!['.', 'm', 'd'];
    assert(md@ == md_ext());
    assert(path@ == u@.take(h as int));
    if chars_ends_with(&path, &md) {
        let mut out = sub_chars(&path, 0, path.len() - 3);
        let html: Vec<char> = vec!['.', 'h', 't', 'm', 'l'];
        push_all(&mut out, &html);
        let fragment = sub_chars(&u, h, u.len());
        assert(fragment@ == u@.skip(h as int));
        push_all(&mut out, &fragment);
        assert(html@ == html_ext());
        string_from_chars(out.as_slice())
    } else {
        string_from_chars(u.as_slice())
    }
}

/// A node as the wiki reads it once its link or image target is translated.
pub open spec fn translated_node(n: NodeInfo) -> NodeInfo {
    match n {
        NodeInfo::Link(u) => NodeInfo::Link(translated_url(u)),
        NodeInfo::Image(u) => NodeInfo::Image(translated_url(u)),
        _ => n,
    }
}

/// The nodes once every link and image target is translated.
pub open spec fn translated_nodes(nodes: Seq<NodeInfo>) -> Seq<NodeInfo> {
    nodes.map_values(|n: NodeInfo| translated_node(n))
}

/// What the wiki reads of the nodes once `translate_links` has translated
/// every link and image target.
pub fn translate_nodes(nodes: &Vec<NodeKind>) -> (r: Vec<NodeKind>)
    ensures
        r@.map_values(|k: NodeKind| k@) == translated_nodes(nodes@.map_values(|k: NodeKind| k@)),
{
    let ghost views = nodes@.map_values(|k: NodeKind| k@);
    let mut out: Vec<NodeKind> = Vec::new();
    let mut i: usize = 0;
    while i < nodes.len()
        invariant
            0 <= i <= nodes.len(),
            views == nodes@.map_values(|k: NodeKind| k@),
            out@.map_values(|k: NodeKind| k@) == translated_nodes(views).take(i as int),
        decreases nodes.len() - i,
    {
        assert(views[i as int] == nodes@[i as int]@);
        let n = match &nodes[i] {
            NodeKind::Link(u) => NodeKind::Link(translate_url(u.as_str())),
            NodeKind::Image(u) => NodeKind::Image(translate_url(u.as_str())),
            NodeKind::Text(t) => NodeKind::Text(str_to_string(t.as_str())),
            NodeKind::Heading(t) => NodeKind::Heading(str_to_string(t.as_str())),
            NodeKind::Other => NodeKind::Other,
        };
        let ghost before = out@.map_values(|k: NodeKind| k@);
        out.push(n);
        assert(out@.map_values(|k: NodeKind| k@) =~= before.push(translated_node(views[i as int])));
        assert(translated_nodes(views).take(i + 1) =~= translated_nodes(views).take(i as int).push(
            translated_node(views[i as int]),
        ));
        i += 1;
    }
    assert(translated_nodes(views).take(i as int) =~= translated_nodes(views));
    out
}

/// The edits that translate the link and image targets of `nodes`: each
/// link or image, in order, gets the translation of its URL.
pub open spec fn translate_edits(nodes: Seq<NodeInfo>) -> Seq<Edit>
    decreases nodes.len(),
{
    if nodes.len() == 0 {
        Seq::<Edit>::empty()
    } else {
        translate_edits(nodes.drop_last()) + match nodes.last() {
            NodeInfo::Link(u) => seq![Edit::SetUrl(nodes.len() - 1, translated_url(u))],
            NodeInfo::Image(u) => seq![Edit::SetUrl(nodes.len() - 1, translated_url(u))],
            _ => Seq::<Edit>::empty(),
        }
    }
}

/// Translate .md links to .html links in the document: every link and
/// image gets `translate_url` of its URL. `nodes` is what the wiki reads of
/// the document's nodes.
pub fn translate_links(doc: &mut MarkdownDoc, nodes: &Vec<NodeKind>)
    requires
        nodes@.map_values(|k: NodeKind| k@) == old(doc)@.nodes,
    ensures
        final(doc)@ == edited(
            old(doc)@,
            translated_nodes(old(doc)@.nodes),
            old(doc)@.edits + translate_edits(old(doc)@.nodes),
        ),
{
    let ghost ns = doc@.nodes;
    let ghost e0 = doc@.edits;
    let ghost d0 = doc@;
    let mut i: usize = 0;
    assert(ns.take(0) =~= Seq::<NodeInfo>::empty());
    assert(translated_nodes(ns.take(0)) + ns.skip(0) =~= ns);
    assert(e0 + translate_edits(ns.take(0)) =~= e0);
    while i < nodes.len()
        invariant
            0 <= i <= nodes.len(),
            ns == nodes@.map_values(|k: NodeKind| k@),
            ns == d0.nodes,
            e0 == d0.edits,
            doc@ == edited(d0, translated_nodes(ns.take(i as int)) + ns.skip(i as int), e0 + translate_edits(ns.take(i as int))),
        decreases nodes.len() - i,
    {
        assert(ns[i as int] == nodes@[i as int]@);
        assert(ns.take(i + 1).drop_last() =~= ns.take(i as int));
        assert(ns.take(i + 1).last() == ns[i as int]);
        let ghost before = doc@;
        assert(before.nodes[i as int] == ns[i as int]) by {
            assert(translated_nodes(ns.take(i as int)).len() == i);
        }
        match &nodes[i] {
            NodeKind::Link(url) => {
                doc.set_url(i, translate_url(url.as_str()));
            },
            NodeKind::Image(url) => {
                doc.set_url(i, translate_url(url.as_str()));
            },
            _ => {},
        }
        assert(doc@.nodes =~= translated_nodes(ns.take(i + 1)) + ns.skip(i + 1));
        assert(doc@.edits =~= e0 + translate_edits(ns.take(i + 1)));
        i += 1;
    }
    assert(ns.take(i as int) =~= ns);
    assert(ns.skip(i as int) =~= Seq::<NodeInfo>::empty());
    assert(doc@.nodes =~= translated_nodes(ns));
}

/// Law: translating is idempotent; a translated URL is translated to
/// itself.
pub proof fn law_translate_url_idempotent(url: Seq<char>)
    ensures
        translated_url(translated_url(url)) == translated_url(url),
{
    let h = char_pos(url, '#');
    lemma_char_pos(url, '#');
    let path = url.take(h);
    if ends_with(path, md_ext()) {
        let base = path.take(path.len() - 3);
        let t = base + html_ext() + url.skip(h);
        let k: int = base.len() + 5int;
        lemma_char_pos(t, '#');
        assert forall|j: int| 0 <= j < k implies t[j] != '#' by {
            if j < base.len() {
                assert(t[j] == url[j]);
            } else {
                assert(t[j] == html_ext()[j - base.len()]);
            }
        }
        if k < t.len() {
            assert(t[k] == url[h]);
            assert(char_pos(t, '#') == k) by {
                if char_pos(t, '#') < k {
                    assert(t[char_pos(t, '#')] != '#');
                }
            }
        } else {
            assert(char_pos(t, '#') == k);
        }
        let tpath = t.take(k);
        assert(tpath.skip(tpath.len() - 3)[2] == 'l');
        assert(!ends_with(tpath, md_ext()));
    }
}

/// Law: the fragment of a URL, from its first `#` on, is kept by
/// translation, and a URL whose path does not end with `.md` is unchanged.
pub proof fn law_translate_url_keeps_fragment(url: Seq<char>)
    ensures
        ends_with(translated_url(url), url.skip(char_pos(url, '#'))),
        !ends_with(url.take(char_pos(url, '#')), md_ext()) ==> translated_url(url) == url,
{
    let h = char_pos(url, '#');
    lemma_char_pos(url, '#');
    let t = translated_url(url);
    let frag = url.skip(h);
    if ends_with(url.take(h), md_ext()) {
        let base = url.take(h).take(h - 3);
        assert(t.skip(t.len() - frag.len()) =~= frag);
    } else {
        assert(url.skip(url.len() - frag.len()) =~= frag);
    }
}

/// Law: a link to `page.md`, with or without a `#fragment`, becomes a link
/// to `page.html` with the same fragment, where `page` holds no `#`.
pub proof fn law_md_link_becomes_html(page: Seq<char>, fragment: Seq<char>)
    requires
        !page.contains('#'),
        fragment.len() == 0 || fragment[0] == '#',
    ensures
        translated_url(page + seq!['.', 'm', 'd'] + fragment) == page + seq!['.', 'h', 't', 'm', 'l'] + fragment,
{
    let url = page + seq!['.', 'm', 'd'] + fragment;
    let k: int = page.len() + 3int;
    lemma_char_pos(url, '#');
    assert forall|j: int| 0 <= j < k implies url[j] != '#' by {
        if j < page.len() {
            assert(url[j] == page[j]);
            if page[j] == '#' {
                assert(page.contains(page[j]));
            }
        }
    }
    let h = char_pos(url, '#');
    if h < k {
        assert(url[h] == '#');
    }
    if k < url.len() {
        assert(url[k] == fragment[0]);
    }
    assert(h == k);
    assert(url.take(h) =~= page + seq!['.', 'm', 'd']);
    assert(url.take(h).skip(url.take(h).len() - 3) =~= md_ext());
    assert(url.take(h).take(url.take(h).len() - 3) =~= page);
    assert(url.skip(h) =~= fragment);
    assert(page + html_ext() + fragment =~= page + seq!['.', 'h', 't', 'm', 'l'] + fragment);
}

} // verus!
