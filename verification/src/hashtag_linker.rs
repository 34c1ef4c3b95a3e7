//! Turning hashtags in text nodes into links to their category pages.
use vstd::prelude::*;
use crate::text::{str_chars, sub_chars, push_all, string_from_chars, str_to_string};
use crate::hashtag_parser::{
    hashtag_positions, tag_end, is_tag_char, starts_hashtag, find_hashtag_positions, scan_tag_end,
    lemma_hashtag_positions_from, lemma_tag_end, lemma_hash_is_no_tag_char,
};
use crate::link_translator::html_ext;
use crate::markdown::{MarkdownDoc, NodeKind, NodeInfo, Edit, edited};
use crate::hashtag_parser::hashtags;

verus! {

/// A piece of a text once its hashtags are links: plain text, or the
/// category of a hashtag.
pub enum Segment {
    Text(String),
    Tag(String),
}

impl View for Segment {
    /// `(false, text)` for plain text, `(true, category)` for a hashtag.
    type V = (bool, Seq<char>);

    open spec fn view(&self) -> (bool, Seq<char>) {
        match self {
            Segment::Text(t) => (false, t@),
            Segment::Tag(c) => (true, c@),
        }
    }
}

/// The pieces of `s` from `last` on, given the positions `pos` of the
/// hashtags still to come: the text before each hashtag (when there is
/// any), the hashtag's category, and after the last hashtag the rest of the
/// text (when there is any).
pub open spec fn segments_from(s: Seq<char>, pos: Seq<int>, last: int) -> Seq<(bool, Seq<char>)>
    decreases pos.len(),
{
    if pos.len() == 0 {
        if last < s.len() {
            seq![(false, s.subrange(last, s.len() as int))]
        } else {
            seq![]
        }
    } else {
        let p = pos[0];
        let e = tag_end(s, p + 1);
        (if p > last {
            seq![(false, s.subrange(last, p))]
        } else {
            seq![]
        }) + seq![(true, s.subrange(p + 1, e))] + segments_from(s, pos.drop_first(), e)
    }
}

/// The pieces of `s` around its hashtags.
pub open spec fn segments(s: Seq<char>) -> Seq<(bool, Seq<char>)> {
    segments_from(s, hashtag_positions(s), 0)
}

/// The text a piece shows: a hashtag shows `#` and its category.
pub open spec fn shown(seg: (bool, Seq<char>)) -> Seq<char> {
    if seg.0 {
        seq!['#'] + seg.1
    } else {
        seg.1
    }
}

/// The text the pieces show, in order.
pub open spec fn shown_all(segs: Seq<(bool, Seq<char>)>) -> Seq<char>
    decreases segs.len(),
{
    if segs.len() == 0 {
        seq![]
    } else {
        shown(segs[0]) + shown_all(segs.drop_first())
    }
}

/// Splits `text` into plain text and hashtags, in order.
pub fn hashtag_segments(text: &str) -> (r: Vec<Segment>)
    ensures
        r@.map_values(|g: Segment| g@) == segments(text@),
{
    let v = str_chars(text);
    let positions = find_hashtag_positions(&v);
    let ghost s = text@;
    let ghost pos = positions@.map_values(|p: usize| p as int);
    proof {
        lemma_hashtag_positions_from(s, 0);
    }
    let mut segs: Vec<Segment> = Vec::new();
    let mut last: usize = 0;
    let mut k: usize = 0;
    assert(pos.skip(0) =~= pos);
    while k < positions.len()
        invariant
            v@ == s,
            pos == positions@.map_values(|p: usize| p as int),
            pos == hashtag_positions(s),
            forall|j: int| 0 <= j < pos.len() ==> 0 <= #[trigger] pos[j] < s.len() && starts_hashtag(s, pos[j]),
            0 <= k <= positions.len(),
            last <= v.len(),
            segs@.map_values(|g: Segment| g@) + segments_from(s, pos.skip(k as int), last as int) == segments(s),
        decreases positions.len() - k,
    {
        let ghost before = segs@.map_values(|g: Segment| g@);
        let p = positions[k];
        assert(pos[k as int] == p);
        assert(pos.skip(k as int)[0] == p);
        assert(pos.skip(k as int).drop_first() =~= pos.skip(k + 1));
        proof {
            lemma_tag_end(s, p + 1);
        }
        let e = scan_tag_end(&v, p + 1);
        let ghost step = (if p > last {
            seq![(false, s.subrange(last as int, p as int))]
        } else {
            seq![]
        }) + seq![(true, s.subrange(p + 1, e as int))];
        if p > last {
            let t = sub_chars(&v, last, p);
            segs.push(Segment::Text(string_from_chars(t.as_slice())));
        }
        let c = sub_chars(&v, p + 1, e);
        segs.push(Segment::Tag(string_from_chars(c.as_slice())));
        assert(segs@.map_values(|g: Segment| g@) =~= before + step);
        last = e;
        k += 1;
    }
    let ghost before = segs@.map_values(|g: Segment| g@);
    assert(pos.skip(k as int) =~= Seq::<int>::empty());
    if last < v.len() {
        let t = sub_chars(&v, last, v.len());
        segs.push(Segment::Text(string_from_chars(t.as_slice())));
        assert(segs@.map_values(|g: Segment| g@) =~= before + seq![(false, s.subrange(last as int, s.len() as int))]);
    } else {
        assert(before + segments_from(s, Seq::<int>::empty(), last as int) =~= before);
    }
    segs
}

/// The categories of the pieces that are hashtags, in order.
pub open spec fn tag_pieces(segs: Seq<(bool, Seq<char>)>) -> Seq<Seq<char>>
    decreases segs.len(),
{
    if segs.len() == 0 {
        Seq::<Seq<char>>::empty()
    } else {
        (if segs[0].0 {
            seq![segs[0].1]
        } else {
            Seq::<Seq<char>>::empty()
        }) + tag_pieces(segs.drop_first())
    }
}

proof fn lemma_tag_pieces_concat(a: Seq<(bool, Seq<char>)>, b: Seq<(bool, Seq<char>)>)
    ensures
        tag_pieces(a + b) == tag_pieces(a) + tag_pieces(b),
    decreases a.len(),
{
    if a.len() == 0 {
        assert(a + b =~= b);
        assert(tag_pieces(a) + tag_pieces(b) =~= tag_pieces(b));
    } else {
        lemma_tag_pieces_concat(a.drop_first(), b);
        assert((a + b).drop_first() =~= a.drop_first() + b);
        assert((a + b)[0] == a[0]);
        let h = if a[0].0 {
            seq![a[0].1]
        } else {
            Seq::<Seq<char>>::empty()
        };
        assert(h + (tag_pieces(a.drop_first()) + tag_pieces(b)) =~= (h + tag_pieces(a.drop_first())) + tag_pieces(b));
    }
}

proof fn lemma_tag_pieces_from(s: Seq<char>, pos: Seq<int>, last: int)
    ensures
        tag_pieces(segments_from(s, pos, last)) == pos.map_values(|p: int| s.subrange(p + 1, tag_end(s, p + 1))),
    decreases pos.len(),
{
    if pos.len() == 0 {
        if last < s.len() {
            let one = seq![(false, s.subrange(last, s.len() as int))];
            assert(one.drop_first() =~= Seq::<(bool, Seq<char>)>::empty());
            assert(!one[0].0);
            assert(tag_pieces(one.drop_first()) == Seq::<Seq<char>>::empty());
            assert(tag_pieces(one) == Seq::<Seq<char>>::empty() + tag_pieces(one.drop_first()));
            assert(tag_pieces(one) =~= Seq::<Seq<char>>::empty());
        }
        assert(pos.map_values(|p: int| s.subrange(p + 1, tag_end(s, p + 1))) =~= Seq::<Seq<char>>::empty());
    } else {
        let p = pos[0];
        let e = tag_end(s, p + 1);
        let pre = if p > last {
            seq![(false, s.subrange(last, p))]
        } else {
            Seq::<(bool, Seq<char>)>::empty()
        };
        let tag = seq![(true, s.subrange(p + 1, e))];
        lemma_tag_pieces_from(s, pos.drop_first(), e);
        lemma_tag_pieces_concat(pre + tag, segments_from(s, pos.drop_first(), e));
        lemma_tag_pieces_concat(pre, tag);
        if p > last {
            assert(pre.drop_first() =~= Seq::<(bool, Seq<char>)>::empty());
            assert(!pre[0].0);
            assert(tag_pieces(pre.drop_first()) == Seq::<Seq<char>>::empty());
            assert(tag_pieces(pre) == Seq::<Seq<char>>::empty() + tag_pieces(pre.drop_first()));
            assert(tag_pieces(pre) =~= Seq::<Seq<char>>::empty());
        }
        assert(tag.drop_first() =~= Seq::<(bool, Seq<char>)>::empty());
        assert(tag[0].0);
        assert(tag_pieces(tag.drop_first()) == Seq::<Seq<char>>::empty());
        assert(tag_pieces(tag) == seq![tag[0].1] + tag_pieces(tag.drop_first()));
        assert(tag_pieces(tag) =~= seq![s.subrange(p + 1, e)]);
        assert(pos.map_values(|q: int| s.subrange(q + 1, tag_end(s, q + 1))) =~= seq![s.subrange(p + 1, e)]
            + pos.drop_first().map_values(|q: int| s.subrange(q + 1, tag_end(s, q + 1))));
    }
}

/// Law: the pieces that are hashtags are exactly the categories of the
/// text's hashtags, in order.
pub proof fn law_tag_pieces_are_hashtags(s: Seq<char>)
    ensures
        tag_pieces(segments(s)) == hashtags(s).map_values(|h: (int, int, Seq<char>)| h.2),
{
    lemma_tag_pieces_from(s, hashtag_positions(s), 0);
    assert(hashtags(s).map_values(|h: (int, int, Seq<char>)| h.2) =~= hashtag_positions(s).map_values(
        |p: int| s.subrange(p + 1, tag_end(s, p + 1)),
    ));
}

/// Law: the pieces show exactly the text: turning hashtags into links
/// loses and adds no character.
pub proof fn law_segments_show_text(s: Seq<char>)
    ensures
        shown_all(segments(s)) == s,
{
    lemma_hash_is_no_tag_char();
    lemma_hashtag_positions_from(s, 0);
    lemma_segments_from_shown(s, hashtag_positions(s), 0);
    assert(s.subrange(0, s.len() as int) =~= s);
}

/// The pieces from `last` on show the text from `last` on.
proof fn lemma_segments_from_shown(s: Seq<char>, pos: Seq<int>, last: int)
    requires
        !is_tag_char('#'),
        0 <= last <= s.len(),
        forall|j: int| 0 <= j < pos.len() ==> last <= #[trigger] pos[j] < s.len() && starts_hashtag(s, pos[j]),
        forall|j1: int, j2: int| 0 <= j1 < j2 < pos.len() ==> pos[j1] < pos[j2],
    ensures
        shown_all(segments_from(s, pos, last)) == s.subrange(last, s.len() as int),
    decreases pos.len(),
{
    if pos.len() == 0 {
        if last < s.len() {
            let segs = segments_from(s, pos, last);
            assert(shown_all(segs.drop_first()) == Seq::<char>::empty());
            assert(shown_all(segs) =~= s.subrange(last, s.len() as int));
        } else {
            assert(s.subrange(last, s.len() as int) =~= Seq::<char>::empty());
        }
    } else {
        let p = pos[0];
        lemma_tag_end(s, p + 1);
        let e = tag_end(s, p + 1);
        let rest = pos.drop_first();
        assert forall|j: int| 0 <= j < rest.len() implies e <= #[trigger] rest[j] < s.len() && starts_hashtag(s, rest[j]) by {
            assert(rest[j] == pos[j + 1]);
            assert(p < rest[j]);
            assert(s[rest[j]] == '#');
            if rest[j] < e {
                assert(is_tag_char(s[rest[j]]));
            }
        }
        assert forall|j1: int, j2: int| 0 <= j1 < j2 < rest.len() implies rest[j1] < rest[j2] by {
            assert(rest[j1] == pos[j1 + 1] && rest[j2] == pos[j2 + 1]);
        }
        lemma_segments_from_shown(s, rest, e);
        let tag = seq![(true, s.subrange(p + 1, e))];
        let tail = segments_from(s, rest, e);
        lemma_shown_all_append(tag, tail);
        assert(shown_all(seq![(true, s.subrange(p + 1, e))].drop_first()) == Seq::<char>::empty());
        assert(shown_all(tag) =~= seq!['#'] + s.subrange(p + 1, e));
        assert(s[p] == '#');
        if p > last {
            let pre = seq![(false, s.subrange(last, p))];
            lemma_shown_all_append(pre, tag + tail);
            assert(segments_from(s, pos, last) == pre + (tag + tail)) by {
                assert(pre + tag + tail =~= pre + (tag + tail));
            }
            assert(shown_all(pre.drop_first()) == Seq::<char>::empty());
            assert(shown_all(pre) =~= s.subrange(last, p));
            assert(s.subrange(last, s.len() as int) =~= s.subrange(last, p) + (seq!['#'] + s.subrange(p + 1, e))
                + s.subrange(e, s.len() as int));
        } else {
            assert(p == last);
            assert(segments_from(s, pos, last) =~= tag + tail);
            assert(s.subrange(last, s.len() as int) =~= (seq!['#'] + s.subrange(p + 1, e)) + s.subrange(e, s.len() as int));
        }
    }
}

/// What pieces show distributes over concatenation.
proof fn lemma_shown_all_append(a: Seq<(bool, Seq<char>)>, b: Seq<(bool, Seq<char>)>)
    ensures
        shown_all(a + b) == shown_all(a) + shown_all(b),
    decreases a.len(),
{
    if a.len() == 0 {
        assert(a + b =~= b);
    } else {
        assert((a + b).drop_first() =~= a.drop_first() + b);
        lemma_shown_all_append(a.drop_first(), b);
        assert(shown_all(a + b) =~= shown_all(a) + shown_all(b));
    }
}

/// The URL a hashtag links to: its category page.
pub open spec fn category_url(category: Seq<char>) -> Seq<char> {
    category + html_ext()
}

/// The link of the hashtag of `category`: the URL of its category page and
/// the text it shows, `#category`.
pub fn hashtag_link(category: &str) -> (r: (String, String))
    ensures
        r.0@ == category_url(category@),
        r.1@ == seq!['#'] + category@,
{
    let cc = str_chars(category);
    let mut url = sub_chars(&cc, 0, cc.len());
    let html: Vec<char> = vec!['.', 'h', 't', 'm', 'l'];
    assert(html@ == html_ext());
    push_all(&mut url, &html);
    let mut label: Vec<char> = vec!['#'];
    push_all(&mut label, &cc);
    assert(url@ =~= category_url(category@));
    assert(label@ =~= seq!['#'] + category@);
    (string_from_chars(url.as_slice()), string_from_chars(label.as_slice()))
}

/// The nodes that a piece becomes: a text node, or a link to the
/// category page holding a text node that shows `#category`.
pub open spec fn piece_nodes(seg: (bool, Seq<char>)) -> Seq<NodeInfo> {
    if seg.0 {
        seq![NodeInfo::Link(category_url(seg.1)), NodeInfo::Text(seq!['#'] + seg.1)]
    } else {
        seq![NodeInfo::Text(seg.1)]
    }
}

/// The nodes that the pieces become, in order.
pub open spec fn pieces_nodes(segs: Seq<(bool, Seq<char>)>) -> Seq<NodeInfo>
    decreases segs.len(),
{
    if segs.len() == 0 {
        Seq::<NodeInfo>::empty()
    } else {
        pieces_nodes(segs.drop_last()) + piece_nodes(segs.last())
    }
}

/// The edits that put the pieces in place of the text node at `pos`: each
/// piece but the last goes right before it; a final text piece becomes its
/// text; after a final hashtag it leaves the tree.
pub open spec fn piece_edits(segs: Seq<(bool, Seq<char>)>, pos: int) -> Seq<Edit>
    decreases segs.len(),
{
    if segs.len() == 0 {
        Seq::<Edit>::empty()
    } else if segs.len() == 1 {
        if segs[0].0 {
            seq![Edit::InsertLink(pos, category_url(segs[0].1), seq!['#'] + segs[0].1), Edit::Detach(pos + 2)]
        } else {
            seq![Edit::SetText(pos, segs[0].1)]
        }
    } else if segs[0].0 {
        seq![Edit::InsertLink(pos, category_url(segs[0].1), seq!['#'] + segs[0].1)] + piece_edits(segs.drop_first(), pos + 2)
    } else {
        seq![Edit::InsertText(pos, segs[0].1)] + piece_edits(segs.drop_first(), pos + 1)
    }
}

/// What a node becomes once hashtags are links: a text with hashtags
/// becomes the nodes of its pieces; any other node stays.
pub open spec fn linkified_node(n: NodeInfo) -> Seq<NodeInfo> {
    match n {
        NodeInfo::Text(t) => if hashtags(t).len() > 0 {
            pieces_nodes(segments(t))
        } else {
            seq![n]
        },
        _ => seq![n],
    }
}

/// The nodes once hashtags are links.
pub open spec fn linkified(nodes: Seq<NodeInfo>) -> Seq<NodeInfo>
    decreases nodes.len(),
{
    if nodes.len() == 0 {
        Seq::<NodeInfo>::empty()
    } else {
        linkified_node(nodes[0]) + linkified(nodes.drop_first())
    }
}

/// The edits for the node `n` at `pos`: those of its pieces when it is a
/// text with hashtags; none otherwise.
pub open spec fn node_link_edits(n: NodeInfo, pos: int) -> Seq<Edit> {
    match n {
        NodeInfo::Text(t) => if hashtags(t).len() > 0 {
            piece_edits(segments(t), pos)
        } else {
            Seq::<Edit>::empty()
        },
        _ => Seq::<Edit>::empty(),
    }
}

/// The edits for the nodes before position `i`, from the last one back.
pub open spec fn link_edits_below(nodes: Seq<NodeInfo>, i: int) -> Seq<Edit>
    decreases i,
{
    if i <= 0 {
        Seq::<Edit>::empty()
    } else {
        node_link_edits(nodes[i - 1], i - 1) + link_edits_below(nodes, i - 1)
    }
}

/// The edits that make the hashtags of `nodes` links, from the last node
/// back (so that the positions of the nodes still to do stay put).
pub open spec fn link_edits(nodes: Seq<NodeInfo>) -> Seq<Edit> {
    link_edits_below(nodes, nodes.len() as int)
}

/// Whether no text node of `nodes` holds a hashtag.
pub open spec fn no_hashtags(nodes: Seq<NodeInfo>) -> bool {
    forall|i: int| 0 <= i < nodes.len() ==> (#[trigger] nodes[i] matches NodeInfo::Text(t) ==> hashtags(t).len() == 0)
}

/// The nodes below position `i` of a document without hashtags give no
/// edits.
proof fn lemma_no_edits_below(nodes: Seq<NodeInfo>, i: int)
    requires
        no_hashtags(nodes),
        i <= nodes.len(),
    ensures
        link_edits_below(nodes, i) == Seq::<Edit>::empty(),
    decreases i,
{
    if i > 0 {
        lemma_no_edits_below(nodes, i - 1);
        assert(node_link_edits(nodes[i - 1], i - 1) == Seq::<Edit>::empty());
        assert(link_edits_below(nodes, i) =~= Seq::<Edit>::empty());
    }
}

/// Law: where no text node holds a hashtag, linking hashtags changes
/// nothing: the nodes stay as they are and no edit is made.
pub proof fn law_no_hashtags_no_change(nodes: Seq<NodeInfo>)
    requires
        no_hashtags(nodes),
    ensures
        linkified(nodes) == nodes,
        link_edits(nodes) == Seq::<Edit>::empty(),
    decreases nodes.len(),
{
    lemma_no_edits_below(nodes, nodes.len() as int);
    if nodes.len() > 0 {
        let rest = nodes.drop_first();
        assert forall|i: int| 0 <= i < rest.len() implies (#[trigger] rest[i] matches NodeInfo::Text(t)
            ==> hashtags(t).len() == 0) by {
            assert(rest[i] == nodes[i + 1]);
        }
        law_no_hashtags_no_change(rest);
        assert(linkified_node(nodes[0]) == seq![nodes[0]]);
        assert(linkified(nodes) =~= nodes);
    }
}

/// Replaces the text node at `pos` by the nodes of the pieces `segs` of its
/// text: text pieces become text nodes and hashtags links to
/// `category.html` showing `#category`. A final text piece stays in the
/// node; without one, the node leaves the tree.
fn apply_segments(doc: &mut MarkdownDoc, pos: usize, segs: &Vec<Segment>)
    requires
        0 < pos < old(doc)@.nodes.len(),
        old(doc)@.nodes[pos as int] is Text,
        segs@.len() > 0,
        old(doc)@.nodes.len() <= usize::MAX,
    ensures
        final(doc)@ == edited(
            old(doc)@,
            old(doc)@.nodes.take(pos as int) + pieces_nodes(segs@.map_values(|g: Segment| g@)) + old(doc)@.nodes.skip(
                pos + 1,
            ),
            old(doc)@.edits + piece_edits(segs@.map_values(|g: Segment| g@), pos as int),
        ),
        final(doc)@.nodes.len() <= usize::MAX,
{
    let ghost d0 = doc@;
    let ghost sv = segs@.map_values(|g: Segment| g@);
    let mut p: usize = pos;
    let mut k: usize = 0;
    assert(sv.take(0) =~= Seq::<(bool, Seq<char>)>::empty());
    assert(sv.skip(0) =~= sv);
    assert(d0.nodes.take(pos as int) + pieces_nodes(sv.take(0)) + d0.nodes.skip(pos as int) =~= d0.nodes);
    assert(d0.edits + piece_edits(sv.skip(0), pos as int) =~= d0.edits + piece_edits(sv, pos as int));
    while k < segs.len()
        invariant
            k < segs@.len(),
            d0 == old(doc)@,
            sv == segs@.map_values(|g: Segment| g@),
            0 < pos < d0.nodes.len(),
            pos <= p,
            d0.nodes[pos as int] is Text,
            p == pos + pieces_nodes(sv.take(k as int)).len(),
            doc@ == edited(d0, doc@.nodes, doc@.edits),
            doc@.nodes == d0.nodes.take(pos as int) + pieces_nodes(sv.take(k as int)) + d0.nodes.skip(pos as int),
            doc@.edits + piece_edits(sv.skip(k as int), p as int) == d0.edits + piece_edits(sv, pos as int),
            doc@.nodes.len() <= usize::MAX,
        decreases segs.len() - k,
    {
        let ghost before = doc@;
        let ghost rest = sv.skip(k as int);
        assert(rest[0] == segs@[k as int]@);
        assert(rest.drop_first() =~= sv.skip(k + 1));
        assert(sv.take(k + 1).drop_last() =~= sv.take(k as int));
        assert(sv.take(k + 1).last() == rest[0]);
        assert(before.nodes[p as int] == d0.nodes[pos as int]);
        let last = k + 1 == segs.len();
        if last {
            assert(rest.len() == 1);
            assert(sv.take(k + 1) =~= sv);
            assert(sv.skip(k + 1).len() == 0);
        }
        match &segs[k] {
            Segment::Text(t) => {
                if last {
                    doc.set_text(p, str_to_string(t.as_str()));
                    proof {
                        assert(doc@.nodes =~= d0.nodes.take(pos as int) + pieces_nodes(sv) + d0.nodes.skip(pos + 1));
                        assert(doc@.edits =~= d0.edits + piece_edits(sv, pos as int));
                        assert(doc@ == edited(
                            d0,
                            d0.nodes.take(pos as int) + pieces_nodes(sv) + d0.nodes.skip(pos + 1),
                            d0.edits + piece_edits(sv, pos as int),
                        ));
                    }
                    return;
                }
                doc.insert_text_before(p, str_to_string(t.as_str()));
                proof {
                    assert(doc@.nodes =~= d0.nodes.take(pos as int) + pieces_nodes(sv.take(k + 1)) + d0.nodes.skip(pos as int));
                    assert(doc@.edits + piece_edits(sv.skip(k + 1), p + 1) =~= d0.edits + piece_edits(sv, pos as int));
                }
                p = p + 1;
            },
            Segment::Tag(c) => {
                let (url, label) = hashtag_link(c.as_str());
                doc.insert_link_before(p, url, label);
                assert(doc@.nodes[p + 2] == d0.nodes[pos as int]);
                if last {
                    doc.detach(p + 2);
                    proof {
                        assert(doc@.nodes =~= d0.nodes.take(pos as int) + pieces_nodes(sv) + d0.nodes.skip(pos + 1));
                        assert(doc@.edits =~= d0.edits + piece_edits(sv, pos as int));
                        assert(doc@ == edited(
                            d0,
                            d0.nodes.take(pos as int) + pieces_nodes(sv) + d0.nodes.skip(pos + 1),
                            d0.edits + piece_edits(sv, pos as int),
                        ));
                    }
                    return;
                }
                proof {
                    assert(doc@.nodes =~= d0.nodes.take(pos as int) + pieces_nodes(sv.take(k + 1)) + d0.nodes.skip(pos as int));
                    assert(doc@.edits + piece_edits(sv.skip(k + 1), p + 2) =~= d0.edits + piece_edits(sv, pos as int));
                }
                p = p + 2;
            },
        }
        k += 1;
    }
}

/// Convert hashtags in text nodes to clickable links in the document: each
/// text node holding a hashtag is replaced by the nodes of its pieces (see
/// `hashtag_segments`), hashtags becoming links to `category.html` that
/// show `#category`; every other node stays. `nodes` is what the wiki reads
/// of the document's nodes, the first of which is its root, as
/// `MarkdownDoc::parse` gives it.
pub fn linkify_hashtags(doc: &mut MarkdownDoc, nodes: &Vec<NodeKind>)
    requires
        nodes@.map_values(|k: NodeKind| k@) == old(doc)@.nodes,
        old(doc)@.nodes.len() <= usize::MAX,
        old(doc)@.nodes.len() > 0,
        old(doc)@.nodes[0] == NodeInfo::Other,
    ensures
        final(doc)@ == edited(old(doc)@, linkified(old(doc)@.nodes), old(doc)@.edits + link_edits(old(doc)@.nodes)),
{
    let ghost d0 = doc@;
    let ghost ns = d0.nodes;
    let mut i: usize = nodes.len();
    assert(ns.skip(i as int) =~= Seq::<NodeInfo>::empty());
    assert(ns.take(i as int) =~= ns);
    assert(ns.take(i as int) + linkified(ns.skip(i as int)) =~= ns);
    while i > 0
        invariant
            i <= nodes@.len(),
            ns == nodes@.map_values(|k: NodeKind| k@),
            ns == d0.nodes,
            ns.len() > 0,
            ns[0] == NodeInfo::Other,
            doc@ == edited(d0, doc@.nodes, doc@.edits),
            doc@.nodes == ns.take(i as int) + linkified(ns.skip(i as int)),
            doc@.edits + link_edits_below(ns, i as int) == d0.edits + link_edits(ns),
            doc@.nodes.len() <= usize::MAX,
        decreases i,
    {
        i -= 1;
        let ghost before = doc@;
        assert(ns[i as int] == nodes@[i as int]@);
        assert(ns.skip(i as int).drop_first() =~= ns.skip(i + 1));
        assert(ns.skip(i as int)[0] == ns[i as int]);
        assert(linkified(ns.skip(i as int)) == linkified_node(ns[i as int]) + linkified(ns.skip(i + 1)));
        assert(before.nodes[i as int] == ns[i as int]);
        match &nodes[i] {
            NodeKind::Text(t) => {
                let positions = find_hashtag_positions(&str_chars(t.as_str()));
                assert(hashtags(t@).len() == positions@.len());
                if positions.len() > 0 {
                    let segs = hashtag_segments(t.as_str());
                    assert(segs@.len() > 0) by {
                        assert(segs@.map_values(|g: Segment| g@).len() == segs@.len());
                    }
                    apply_segments(doc, i, &segs);
                    proof {
                        assert(before.nodes.take(i as int) =~= ns.take(i as int));
                        assert(before.nodes.skip(i + 1) =~= linkified(ns.skip(i + 1)));
                    }
                }
            },
            _ => {},
        }
        assert(doc@.nodes =~= ns.take(i as int) + linkified(ns.skip(i as int)));
        assert(doc@.edits + link_edits_below(ns, i as int) =~= d0.edits + link_edits(ns));
    }
    assert(ns.skip(0) =~= ns);
}

} // verus!
