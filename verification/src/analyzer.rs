//! The analyzer: while the pages of the wiki are processed one after the
//! other, it records which page links to which (backlinks), which pages
//! carry which hashtag (categories), and the headings of each page (the
//! search index).
use vstd::prelude::*;
use crate::text::{
    contains, starts_with, ends_with, char_pos, lemma_char_pos, replace_all, str_chars, chars_pos, chars_contains,
    chars_starts_with, chars_ends_with, sub_chars, chars_replace_all, string_from_chars, str_to_string,
};
use crate::link_translator::{md_ext, html_ext};
use crate::hashtag_parser::{hashtags, parse_hashtags, Hashtag};
use crate::sorted_set_map::SortedSetMap;
use crate::markdown::{new_anchorizer, anchorize, anchors_used, anchor_of, NodeKind, NodeInfo};

verus! {

/// A heading of a page: its text and its anchor id.
#[derive(Debug)]
pub struct Heading {
    pub text: String,
    pub id: String,
}

impl View for Heading {
    type V = (Seq<char>, Seq<char>);

    open spec fn view(&self) -> (Seq<char>, Seq<char>) {
        (self.text@, self.id@)
    }
}

/// A generated page and its headings.
#[derive(Debug)]
pub struct Document {
    pub path: String,
    pub headings: Vec<Heading>,
}

impl View for Document {
    type V = (Seq<char>, Seq<(Seq<char>, Seq<char>)>);

    open spec fn view(&self) -> (Seq<char>, Seq<(Seq<char>, Seq<char>)>) {
        (self.path@, self.headings@.map_values(|h: Heading| h@))
    }
}

/// The search index: the documents with their headings.
#[derive(Debug)]
pub struct SearchIndex {
    pub documents: Vec<Document>,
}

impl View for SearchIndex {
    type V = Seq<(Seq<char>, Seq<(Seq<char>, Seq<char>)>)>;

    open spec fn view(&self) -> Seq<(Seq<char>, Seq<(Seq<char>, Seq<char>)>)> {
        self.documents@.map_values(|d: Document| d@)
    }
}

/// What the analyzer reads of a page's tree, in document order: link
/// targets, texts, and headings with their anchor ids.
pub enum AstItem {
    Link(String),
    Text(String),
    Heading(String, String),
}

/// The characters of an item: `ItemView` holds a link target, a text, or a
/// heading's text and anchor id.
pub enum ItemView {
    Link(Seq<char>),
    Text(Seq<char>),
    Heading(Seq<char>, Seq<char>),
}

impl View for AstItem {
    type V = ItemView;

    open spec fn view(&self) -> ItemView {
        match self {
            AstItem::Link(url) => ItemView::Link(url@),
            AstItem::Text(t) => ItemView::Text(t@),
            AstItem::Heading(text, id) => ItemView::Heading(text@, id@),
        }
    }
}

/// The items that the analyzer reads from a page's nodes from position `i`
/// on, when the anchors `used` were handed out before: each link's target,
/// each text, and each heading with its anchor; images and other nodes give
/// nothing.
pub open spec fn node_items_from(nodes: Seq<NodeInfo>, i: int, used: Set<Seq<char>>) -> Seq<ItemView>
    decreases nodes.len() - i,
{
    if i < 0 || i >= nodes.len() {
        Seq::<ItemView>::empty()
    } else {
        match nodes[i] {
            NodeInfo::Link(u) => seq![ItemView::Link(u)] + node_items_from(nodes, i + 1, used),
            NodeInfo::Text(t) => seq![ItemView::Text(t)] + node_items_from(nodes, i + 1, used),
            NodeInfo::Heading(t) => seq![ItemView::Heading(t, anchor_of(used, t))] + node_items_from(
                nodes,
                i + 1,
                used.insert(anchor_of(used, t)),
            ),
            _ => node_items_from(nodes, i + 1, used),
        }
    }
}

/// The items that the analyzer reads from a page's nodes.
pub open spec fn page_items(nodes: Seq<NodeInfo>) -> Seq<ItemView> {
    node_items_from(nodes, 0, Set::<Seq<char>>::empty())
}

/// The views of a list of items.
pub open spec fn item_views(items: Seq<AstItem>) -> Seq<ItemView> {
    items.map_values(|i: AstItem| i@)
}

/// The state of an analyzer.
pub struct AnalyzerView {
    /// Target page (`name.html`) to the source files (`name.md`) linking to it.
    pub backlinks: Map<Seq<char>, Set<Seq<char>>>,
    /// Category name to the source files carrying its hashtag.
    pub categories: Map<Seq<char>, Set<Seq<char>>>,
    /// The source file being analyzed.
    pub current_file: Seq<char>,
    /// The headings seen so far in the current file.
    pub current_headings: Seq<(Seq<char>, Seq<char>)>,
    /// The documents of the files done before the current one.
    pub documents: Seq<(Seq<char>, Seq<(Seq<char>, Seq<char>)>)>,
}

/// `m` with `v` added to the set under `k`.
pub open spec fn with_member(m: Map<Seq<char>, Set<Seq<char>>>, k: Seq<char>, v: Seq<char>) -> Map<
    Seq<char>,
    Set<Seq<char>>,
> {
    m.insert(
        k,
        if m.contains_key(k) {
            m[k].insert(v)
        } else {
            Set::<Seq<char>>::empty().insert(v)
        },
    )
}

/// `m` with `file` added under the category of each hashtag.
pub open spec fn with_categories(
    m: Map<Seq<char>, Set<Seq<char>>>,
    tags: Seq<(int, int, Seq<char>)>,
    file: Seq<char>,
) -> Map<Seq<char>, Set<Seq<char>>>
    decreases tags.len(),
{
    if tags.len() == 0 {
        m
    } else {
        with_member(with_categories(m, tags.drop_last(), file), tags.last().2, file)
    }
}

/// The page part of a link target: everything before the first `#`.
pub open spec fn link_base(url: Seq<char>) -> Seq<char> {
    url.take(char_pos(url, '#'))
}

/// A link target that names a page of the wiki: it has no scheme (`://`),
/// is not protocol-relative (`//`), and ends with `.html`.
pub open spec fn is_page_link(base: Seq<char>) -> bool {
    &&& !contains(base, seq![':', '/', '/'])
    &&& !starts_with(base, seq!['/', '/'])
    &&& ends_with(base, html_ext())
}

/// Law: a link to another site (its page part holds `://` or starts with
/// `//`) records no backlink; reading it changes nothing.
pub proof fn law_external_links_not_tracked(st: AnalyzerView, url: Seq<char>)
    requires
        contains(link_base(url), seq![':', '/', '/']) || starts_with(link_base(url), seq!['/', '/']),
    ensures
        apply_item(st, ItemView::Link(url)) == st,
{
}

/// The state after reading one item of the current file's tree.
pub open spec fn apply_item(st: AnalyzerView, item: ItemView) -> AnalyzerView {
    match item {
        ItemView::Link(url) => if is_page_link(link_base(url)) {
            AnalyzerView {
                backlinks: with_member(st.backlinks, link_base(url), st.current_file),
                categories: st.categories,
                current_file: st.current_file,
                current_headings: st.current_headings,
                documents: st.documents,
            }
        } else {
            st
        },
        ItemView::Text(t) => AnalyzerView {
            backlinks: st.backlinks,
            categories: with_categories(st.categories, hashtags(t), st.current_file),
            current_file: st.current_file,
            current_headings: st.current_headings,
            documents: st.documents,
        },
        ItemView::Heading(text, id) => AnalyzerView {
            backlinks: st.backlinks,
            categories: st.categories,
            current_file: st.current_file,
            current_headings: st.current_headings.push((text, id)),
            documents: st.documents,
        },
    }
}

/// The state after reading the items in order.
pub open spec fn apply_items(st: AnalyzerView, items: Seq<ItemView>) -> AnalyzerView
    decreases items.len(),
{
    if items.len() == 0 {
        st
    } else {
        apply_item(apply_items(st, items.drop_last()), items.last())
    }
}

/// The documents with the current file's document added, when there is a
/// current file with headings. Its path is the file name with every `.md`
/// replaced by `.html`.
pub open spec fn documents_with_current(st: AnalyzerView) -> Seq<(Seq<char>, Seq<(Seq<char>, Seq<char>)>)> {
    if st.current_file.len() > 0 && st.current_headings.len() > 0 {
        st.documents.push((replace_all(st.current_file, md_ext(), html_ext()), st.current_headings))
    } else {
        st.documents
    }
}

/// The analyzer state once `file_name` has become the current file.
pub open spec fn with_current_file(st: AnalyzerView, file_name: Seq<char>) -> AnalyzerView {
    AnalyzerView {
        backlinks: st.backlinks,
        categories: st.categories,
        current_file: file_name,
        current_headings: Seq::<(Seq<char>, Seq<char>)>::empty(),
        documents: documents_with_current(st),
    }
}

// ---------------------------------------------------------------------
// The order in which pages are analyzed does not matter.
// ---------------------------------------------------------------------

/// `m` with each pair's value added to the set under the pair's key.
pub open spec fn with_members(m: Map<Seq<char>, Set<Seq<char>>>, pairs: Seq<(Seq<char>, Seq<char>)>) -> Map<
    Seq<char>,
    Set<Seq<char>>,
>
    decreases pairs.len(),
{
    if pairs.len() == 0 {
        m
    } else {
        with_member(with_members(m, pairs.drop_last()), pairs.last().0, pairs.last().1)
    }
}

/// The set under `k` once the pairs are added to `m`.
pub open spec fn members_after(m: Map<Seq<char>, Set<Seq<char>>>, pairs: Seq<(Seq<char>, Seq<char>)>, k: Seq<char>) -> Set<
    Seq<char>,
> {
    Set::new(|v: Seq<char>| (m.contains_key(k) && m[k].contains(v)) || pairs.contains((k, v)))
}

/// Whether `k` is a key once the pairs are added to `m`.
pub open spec fn key_after(m: Map<Seq<char>, Set<Seq<char>>>, pairs: Seq<(Seq<char>, Seq<char>)>, k: Seq<char>) -> bool {
    m.contains_key(k) || exists|v: Seq<char>| pairs.contains((k, v))
}

/// Adding pairs gives the keys and sets that `key_after` and
/// `members_after` say, whatever their order.
proof fn lemma_with_members(m: Map<Seq<char>, Set<Seq<char>>>, pairs: Seq<(Seq<char>, Seq<char>)>)
    ensures
        forall|k: Seq<char>| #[trigger] with_members(m, pairs).contains_key(k) == key_after(m, pairs, k),
        forall|k: Seq<char>| #[trigger] with_members(m, pairs).contains_key(k) && !m.contains_key(k) ==> with_members(m, pairs)[k] == members_after(m, pairs, k),
        forall|k: Seq<char>| m.contains_key(k) ==> #[trigger] with_members(m, pairs)[k] == members_after(m, pairs, k),
    decreases pairs.len(),
{
    if pairs.len() == 0 {
        assert forall|k: Seq<char>| m.contains_key(k) implies #[trigger] with_members(m, pairs)[k] == members_after(m, pairs, k) by {
            assert(m[k] =~= members_after(m, pairs, k));
        }
    } else {
        let init = pairs.drop_last();
        let (key, val) = pairs.last();
        lemma_with_members(m, init);
        let prev = with_members(m, init);
        assert forall|k: Seq<char>, v: Seq<char>| #[trigger] pairs.contains((k, v)) == (init.contains((k, v)) || (k == key && v == val)) by {
            if pairs.contains((k, v)) {
                let i = choose|i: int| 0 <= i < pairs.len() && pairs[i] == (k, v);
                if i < init.len() {
                    assert(init[i] == (k, v));
                }
            }
            if init.contains((k, v)) {
                let i = choose|i: int| 0 <= i < init.len() && init[i] == (k, v);
                assert(pairs[i] == (k, v));
            }
            if k == key && v == val {
                assert(pairs[pairs.len() - 1] == (k, v));
            }
        }
        assert forall|k: Seq<char>| #[trigger] with_members(m, pairs).contains_key(k) == key_after(m, pairs, k) by {
            if k == key {
                assert(pairs.contains((key, val)));
            } else if key_after(m, pairs, k) && !m.contains_key(k) {
                let v = choose|v: Seq<char>| pairs.contains((k, v));
                assert(init.contains((k, v)));
            } else if key_after(m, init, k) && !m.contains_key(k) {
                let v = choose|v: Seq<char>| init.contains((k, v));
                assert(pairs.contains((k, v)));
            }
        }
        assert forall|k: Seq<char>| #[trigger] with_members(m, pairs).contains_key(k) implies with_members(m, pairs)[k]
            == members_after(m, pairs, k) by {
            if k == key {
                if prev.contains_key(k) {
                    if m.contains_key(k) {
                        assert(prev[k] == members_after(m, init, k));
                    }
                    assert(with_members(m, pairs)[k] =~= members_after(m, pairs, k));
                } else {
                    assert(!m.contains_key(k));
                    assert forall|v: Seq<char>| !init.contains((k, v)) by {
                        if init.contains((k, v)) {
                            assert(key_after(m, init, k));
                        }
                    }
                    assert(with_members(m, pairs)[k] =~= members_after(m, pairs, k));
                }
            } else {
                assert(prev.contains_key(k));
                assert(prev[k] == members_after(m, init, k));
                assert(with_members(m, pairs)[k] =~= members_after(m, pairs, k));
            }
        }
    }
}

/// Adding two lists of pairs gives the same map in either order.
proof fn lemma_with_members_commute(
    m: Map<Seq<char>, Set<Seq<char>>>,
    p: Seq<(Seq<char>, Seq<char>)>,
    q: Seq<(Seq<char>, Seq<char>)>,
)
    ensures
        with_members(with_members(m, p), q) == with_members(with_members(m, q), p),
{
    let a = with_members(with_members(m, p), q);
    let b = with_members(with_members(m, q), p);
    let mp = with_members(m, p);
    let mq = with_members(m, q);
    lemma_with_members(m, p);
    lemma_with_members(m, q);
    lemma_with_members(mp, q);
    lemma_with_members(mq, p);
    assert forall|k: Seq<char>| #[trigger] a.contains_key(k) == b.contains_key(k) by {
        if key_after(mp, q, k) {
            if !mp.contains_key(k) {
                let v = choose|v: Seq<char>| q.contains((k, v));
                assert(mq.contains_key(k));
            }
        }
        if key_after(mq, p, k) {
            if !mq.contains_key(k) {
                let v = choose|v: Seq<char>| p.contains((k, v));
                assert(mp.contains_key(k));
            }
        }
    }
    assert forall|k: Seq<char>| a.contains_key(k) implies #[trigger] a[k] == b[k] by {
        assert(a[k] == members_after(mp, q, k));
        assert(b[k] == members_after(mq, p, k));
        assert(a[k] =~= b[k]);
    }
    assert(a =~= b);
}

/// The backlink pairs of the items of a file: (page linked, file).
pub open spec fn link_pairs(items: Seq<ItemView>, file: Seq<char>) -> Seq<(Seq<char>, Seq<char>)>
    decreases items.len(),
{
    if items.len() == 0 {
        Seq::<(Seq<char>, Seq<char>)>::empty()
    } else {
        let prev = link_pairs(items.drop_last(), file);
        match items.last() {
            ItemView::Link(url) => if is_page_link(link_base(url)) {
                prev.push((link_base(url), file))
            } else {
                prev
            },
            _ => prev,
        }
    }
}

/// The category pairs of hashtags: (category, file).
pub open spec fn tag_pairs(tags: Seq<(int, int, Seq<char>)>, file: Seq<char>) -> Seq<(Seq<char>, Seq<char>)> {
    tags.map_values(|t: (int, int, Seq<char>)| (t.2, file))
}

/// The category pairs of the items of a file: (category, file).
pub open spec fn category_pairs(items: Seq<ItemView>, file: Seq<char>) -> Seq<(Seq<char>, Seq<char>)>
    decreases items.len(),
{
    if items.len() == 0 {
        Seq::<(Seq<char>, Seq<char>)>::empty()
    } else {
        let prev = category_pairs(items.drop_last(), file);
        match items.last() {
            ItemView::Text(t) => prev + tag_pairs(hashtags(t), file),
            _ => prev,
        }
    }
}

/// Adding the categories of hashtags is adding their pairs.
proof fn lemma_with_categories(m: Map<Seq<char>, Set<Seq<char>>>, tags: Seq<(int, int, Seq<char>)>, file: Seq<char>)
    ensures
        with_categories(m, tags, file) == with_members(m, tag_pairs(tags, file)),
    decreases tags.len(),
{
    if tags.len() > 0 {
        lemma_with_categories(m, tags.drop_last(), file);
        assert(tag_pairs(tags, file).drop_last() =~= tag_pairs(tags.drop_last(), file));
    }
}

/// Adding `p` then `q` is adding `p + q`.
proof fn lemma_with_members_append(
    m: Map<Seq<char>, Set<Seq<char>>>,
    p: Seq<(Seq<char>, Seq<char>)>,
    q: Seq<(Seq<char>, Seq<char>)>,
)
    ensures
        with_members(with_members(m, p), q) == with_members(m, p + q),
    decreases q.len(),
{
    if q.len() > 0 {
        lemma_with_members_append(m, p, q.drop_last());
        assert((p + q).drop_last() =~= p + q.drop_last());
    } else {
        assert(p + q =~= p);
    }
}

/// Reading items adds their link pairs to the backlinks and their category
/// pairs to the categories, and keeps the current file.
proof fn lemma_apply_items(st: AnalyzerView, items: Seq<ItemView>)
    ensures
        apply_items(st, items).current_file == st.current_file,
        apply_items(st, items).backlinks == with_members(st.backlinks, link_pairs(items, st.current_file)),
        apply_items(st, items).categories == with_members(st.categories, category_pairs(items, st.current_file)),
    decreases items.len(),
{
    if items.len() > 0 {
        let init = items.drop_last();
        lemma_apply_items(st, init);
        let prev = apply_items(st, init);
        match items.last() {
            ItemView::Text(t) => {
                lemma_with_categories(prev.categories, hashtags(t), st.current_file);
                lemma_with_members_append(st.categories, category_pairs(init, st.current_file), tag_pairs(hashtags(t), st.current_file));
            },
            ItemView::Link(url) => {
                if is_page_link(link_base(url)) {
                    let lp = link_pairs(items, st.current_file);
                    assert(lp.drop_last() =~= link_pairs(init, st.current_file));
                    assert(with_members(st.backlinks, lp) == with_member(
                        with_members(st.backlinks, lp.drop_last()),
                        lp.last().0,
                        lp.last().1,
                    ));
                }
            },
            _ => {},
        }
    }
}

/// Law: the backlinks and categories recorded for two files do not depend
/// on which of the two is analyzed first.
pub proof fn law_analysis_order_independent(
    st: AnalyzerView,
    f1: Seq<char>,
    items1: Seq<ItemView>,
    f2: Seq<char>,
    items2: Seq<ItemView>,
)
    ensures
        ({
            let a = apply_items(with_current_file(apply_items(with_current_file(st, f1), items1), f2), items2);
            let b = apply_items(with_current_file(apply_items(with_current_file(st, f2), items2), f1), items1);
            a.backlinks == b.backlinks && a.categories == b.categories
        }),
{
    let s1 = with_current_file(st, f1);
    let s2 = with_current_file(st, f2);
    lemma_apply_items(s1, items1);
    lemma_apply_items(s2, items2);
    let a1 = with_current_file(apply_items(s1, items1), f2);
    let b1 = with_current_file(apply_items(s2, items2), f1);
    lemma_apply_items(a1, items2);
    lemma_apply_items(b1, items1);
    lemma_with_members_commute(st.backlinks, link_pairs(items1, f1), link_pairs(items2, f2));
    lemma_with_members_commute(st.categories, category_pairs(items1, f1), category_pairs(items2, f2));
}

/// The state of a new analyzer: nothing recorded and no current file.
pub open spec fn initial_analysis() -> AnalyzerView {
    AnalyzerView {
        backlinks: Map::<Seq<char>, Set<Seq<char>>>::empty(),
        categories: Map::<Seq<char>, Set<Seq<char>>>::empty(),
        current_file: Seq::<char>::empty(),
        current_headings: Seq::<(Seq<char>, Seq<char>)>::empty(),
        documents: Seq::<(Seq<char>, Seq<(Seq<char>, Seq<char>)>)>::empty(),
    }
}

/// The state after analyzing the files `names` in order, file `i` read as
/// the items `items[i]`.
pub open spec fn analysis_of(names: Seq<Seq<char>>, items: Seq<Seq<ItemView>>) -> AnalyzerView
    decreases names.len(),
{
    if names.len() == 0 {
        initial_analysis()
    } else {
        apply_items(
            with_current_file(analysis_of(names.drop_last(), items.drop_last()), names.last()),
            items.last(),
        )
    }
}

// ---------------------------------------------------------------------
// Categories come from the hashtags that pages carry.
// ---------------------------------------------------------------------

/// Whether `f` is listed under `k` in `m`.
pub open spec fn listed_under(m: Map<Seq<char>, Set<Seq<char>>>, k: Seq<char>, f: Seq<char>) -> bool {
    m.contains_key(k) && m[k].contains(f)
}

/// The hashtags of an item: those of a text; none for any other item.
pub open spec fn item_hashtags(item: ItemView) -> Seq<(int, int, Seq<char>)> {
    match item {
        ItemView::Text(t) => hashtags(t),
        _ => Seq::<(int, int, Seq<char>)>::empty(),
    }
}

/// Whether one of the hashtags has the category `k`.
pub open spec fn has_category(tags: Seq<(int, int, Seq<char>)>, k: Seq<char>) -> bool {
    exists|h: int| 0 <= h < tags.len() && #[trigger] tags[h].2 == k
}

/// Whether a text among the items of a page carries the hashtag `#k`.
pub open spec fn carries_category(items: Seq<ItemView>, k: Seq<char>) -> bool {
    exists|j: int| 0 <= j < items.len() && has_category(#[trigger] item_hashtags(items[j]), k)
}

/// Adding the categories of hashtags for `file` adds `k` exactly when a
/// hashtag has that category, and lists `file` under it.
proof fn lemma_category_membership(
    m: Map<Seq<char>, Set<Seq<char>>>,
    tags: Seq<(int, int, Seq<char>)>,
    file: Seq<char>,
    k: Seq<char>,
    f: Seq<char>,
)
    ensures
        with_categories(m, tags, file).contains_key(k) <==> (m.contains_key(k) || has_category(tags, k)),
        listed_under(with_categories(m, tags, file), k, f) <==> (listed_under(m, k, f) || (f == file
            && has_category(tags, k))),
    decreases tags.len(),
{
    if tags.len() > 0 {
        let init = tags.drop_last();
        lemma_category_membership(m, init, file, k, f);
        if has_category(tags, k) {
            let h = choose|h: int| 0 <= h < tags.len() && #[trigger] tags[h].2 == k;
            if h < init.len() {
                assert(init[h].2 == k);
            }
        }
        if has_category(init, k) {
            let h = choose|h: int| 0 <= h < init.len() && #[trigger] init[h].2 == k;
            assert(tags[h].2 == k);
        }
        if tags.last().2 == k {
            assert(tags[tags.len() - 1].2 == k);
        }
    }
}

/// Reading items keeps the current file, adds a category exactly when a
/// text among them carries it, and lists the current file under it.
proof fn lemma_apply_items_categories(st: AnalyzerView, items: Seq<ItemView>, k: Seq<char>, f: Seq<char>)
    ensures
        apply_items(st, items).current_file == st.current_file,
        apply_items(st, items).categories.contains_key(k) <==> (st.categories.contains_key(k)
            || carries_category(items, k)),
        listed_under(apply_items(st, items).categories, k, f) <==> (listed_under(st.categories, k, f) || (f
            == st.current_file && carries_category(items, k))),
    decreases items.len(),
{
    if items.len() > 0 {
        let init = items.drop_last();
        let last = items.last();
        lemma_apply_items_categories(st, init, k, f);
        let prev = apply_items(st, init);
        match last {
            ItemView::Text(t) => {
                lemma_category_membership(prev.categories, hashtags(t), prev.current_file, k, f);
            },
            _ => {},
        }
        if carries_category(items, k) {
            let j = choose|j: int| 0 <= j < items.len() && has_category(#[trigger] item_hashtags(items[j]), k);
            if j < init.len() {
                assert(item_hashtags(init[j]) == item_hashtags(items[j]));
            } else {
                assert(items[j] == last);
            }
        }
        if carries_category(init, k) {
            let j = choose|j: int| 0 <= j < init.len() && has_category(#[trigger] item_hashtags(init[j]), k);
            assert(item_hashtags(items[j]) == item_hashtags(init[j]));
        }
        if has_category(item_hashtags(last), k) {
            assert(item_hashtags(items[items.len() - 1]) == item_hashtags(last));
        }
    }
}

/// Law: after analyzing pages, a page is listed under a category exactly
/// when one of its texts carries that hashtag, and a category is recorded
/// only for a hashtag that some page carries (so no category page comes of
/// a hashtag that no page uses).
pub proof fn law_categories_are_carried_hashtags(
    names: Seq<Seq<char>>,
    items: Seq<Seq<ItemView>>,
    k: Seq<char>,
    f: Seq<char>,
)
    requires
        names.len() == items.len(),
    ensures
        analysis_of(names, items).categories.contains_key(k) <==> exists|i: int|
            0 <= i < names.len() && #[trigger] carries_category(items[i], k),
        listed_under(analysis_of(names, items).categories, k, f) <==> exists|i: int|
            0 <= i < names.len() && names[i] == f && #[trigger] carries_category(items[i], k),
    decreases names.len(),
{
    if names.len() > 0 {
        let n = names.len() - 1;
        let ni = names.drop_last();
        let ii = items.drop_last();
        law_categories_are_carried_hashtags(ni, ii, k, f);
        let st = with_current_file(analysis_of(ni, ii), names.last());
        lemma_apply_items_categories(st, items.last(), k, f);
        if exists|i: int| 0 <= i < names.len() && #[trigger] carries_category(items[i], k) {
            let i = choose|i: int| 0 <= i < names.len() && #[trigger] carries_category(items[i], k);
            if i < n {
                assert(carries_category(ii[i], k));
            }
        }
        if exists|i: int| 0 <= i < names.len() && names[i] == f && #[trigger] carries_category(items[i], k) {
            let i = choose|i: int| 0 <= i < names.len() && names[i] == f && #[trigger] carries_category(items[i], k);
            if i < n {
                assert(ni[i] == f && carries_category(ii[i], k));
            }
        }
        if exists|i: int| 0 <= i < ni.len() && #[trigger] carries_category(ii[i], k) {
            let i = choose|i: int| 0 <= i < ni.len() && #[trigger] carries_category(ii[i], k);
            assert(carries_category(items[i], k));
        }
        if exists|i: int| 0 <= i < ni.len() && ni[i] == f && #[trigger] carries_category(ii[i], k) {
            let i = choose|i: int| 0 <= i < ni.len() && ni[i] == f && #[trigger] carries_category(ii[i], k);
            assert(names[i] == f && carries_category(items[i], k));
        }
        if carries_category(items.last(), k) {
            assert(carries_category(items[n], k));
        }
    }
}

/// The page that an item links to: that of a link to a page of the wiki;
/// none for any other item.
pub open spec fn item_link_target(item: ItemView) -> Option<Seq<char>> {
    match item {
        ItemView::Link(url) => if is_page_link(link_base(url)) {
            Some(link_base(url))
        } else {
            None
        },
        _ => None,
    }
}

/// Whether a link among the items of a page leads to the page `target`.
pub open spec fn links_to(items: Seq<ItemView>, target: Seq<char>) -> bool {
    exists|j: int| 0 <= j < items.len() && #[trigger] item_link_target(items[j]) == Some(target)
}

/// Reading items adds a backlink target exactly when a link among them
/// leads to it, and lists the current file under it.
proof fn lemma_apply_items_backlinks(st: AnalyzerView, items: Seq<ItemView>, k: Seq<char>, f: Seq<char>)
    ensures
        apply_items(st, items).current_file == st.current_file,
        apply_items(st, items).backlinks.contains_key(k) <==> (st.backlinks.contains_key(k) || links_to(items, k)),
        listed_under(apply_items(st, items).backlinks, k, f) <==> (listed_under(st.backlinks, k, f) || (f
            == st.current_file && links_to(items, k))),
    decreases items.len(),
{
    if items.len() > 0 {
        let init = items.drop_last();
        let last = items.last();
        lemma_apply_items_backlinks(st, init, k, f);
        if links_to(items, k) {
            let j = choose|j: int| 0 <= j < items.len() && #[trigger] item_link_target(items[j]) == Some(k);
            if j < init.len() {
                assert(item_link_target(init[j]) == Some(k));
            }
        }
        if links_to(init, k) {
            let j = choose|j: int| 0 <= j < init.len() && #[trigger] item_link_target(init[j]) == Some(k);
            assert(item_link_target(items[j]) == Some(k));
        }
        if item_link_target(last) == Some(k) {
            assert(item_link_target(items[items.len() - 1]) == Some(k));
        }
    }
}

/// Law: after analyzing pages, a page is listed under a target page
/// exactly when one of its links leads there, and only pages that some
/// link leads to are targets.
pub proof fn law_backlinks_are_links(names: Seq<Seq<char>>, items: Seq<Seq<ItemView>>, k: Seq<char>, f: Seq<char>)
    requires
        names.len() == items.len(),
    ensures
        analysis_of(names, items).backlinks.contains_key(k) <==> exists|i: int|
            0 <= i < names.len() && #[trigger] links_to(items[i], k),
        listed_under(analysis_of(names, items).backlinks, k, f) <==> exists|i: int|
            0 <= i < names.len() && names[i] == f && #[trigger] links_to(items[i], k),
    decreases names.len(),
{
    if names.len() > 0 {
        let n = names.len() - 1;
        let ni = names.drop_last();
        let ii = items.drop_last();
        law_backlinks_are_links(ni, ii, k, f);
        let st = with_current_file(analysis_of(ni, ii), names.last());
        lemma_apply_items_backlinks(st, items.last(), k, f);
        if exists|i: int| 0 <= i < names.len() && #[trigger] links_to(items[i], k) {
            let i = choose|i: int| 0 <= i < names.len() && #[trigger] links_to(items[i], k);
            if i < n {
                assert(links_to(ii[i], k));
            }
        }
        if exists|i: int| 0 <= i < names.len() && names[i] == f && #[trigger] links_to(items[i], k) {
            let i = choose|i: int| 0 <= i < names.len() && names[i] == f && #[trigger] links_to(items[i], k);
            if i < n {
                assert(ni[i] == f && links_to(ii[i], k));
            }
        }
        if exists|i: int| 0 <= i < ni.len() && #[trigger] links_to(ii[i], k) {
            let i = choose|i: int| 0 <= i < ni.len() && #[trigger] links_to(ii[i], k);
            assert(links_to(items[i], k));
        }
        if exists|i: int| 0 <= i < ni.len() && ni[i] == f && #[trigger] links_to(ii[i], k) {
            let i = choose|i: int| 0 <= i < ni.len() && ni[i] == f && #[trigger] links_to(ii[i], k);
            assert(names[i] == f && links_to(items[i], k));
        }
        if links_to(items.last(), k) {
            assert(links_to(items[n], k));
        }
    }
}

/// Adding pairs to a map with finitely many keys leaves finitely many keys.
proof fn lemma_with_members_finite(m: Map<Seq<char>, Set<Seq<char>>>, pairs: Seq<(Seq<char>, Seq<char>)>)
    requires
        m.dom().finite(),
    ensures
        with_members(m, pairs).dom().finite(),
    decreases pairs.len(),
{
    if pairs.len() > 0 {
        lemma_with_members_finite(m, pairs.drop_last());
        let prev = with_members(m, pairs.drop_last());
        assert(with_members(m, pairs).dom() =~= prev.dom().insert(pairs.last().0));
    }
}

/// An analysis of pages records finitely many backlink targets and
/// categories.
pub proof fn lemma_analysis_finite(names: Seq<Seq<char>>, items: Seq<Seq<ItemView>>)
    ensures
        analysis_of(names, items).backlinks.dom().finite(),
        analysis_of(names, items).categories.dom().finite(),
    decreases names.len(),
{
    if names.len() == 0 {
        assert(initial_analysis().backlinks.dom() =~= Set::<Seq<char>>::empty());
        assert(initial_analysis().categories.dom() =~= Set::<Seq<char>>::empty());
    } else {
        lemma_analysis_finite(names.drop_last(), items.drop_last());
        let st = with_current_file(analysis_of(names.drop_last(), items.drop_last()), names.last());
        lemma_apply_items(st, items.last());
        lemma_with_members_finite(st.backlinks, link_pairs(items.last(), st.current_file));
        lemma_with_members_finite(st.categories, category_pairs(items.last(), st.current_file));
    }
}

/// Analyzer that tracks backlinks and categories by analyzing the AST.
pub struct Analyzer {
    backlinks: SortedSetMap,
    categories: SortedSetMap,
    current_file: String,
    current_headings: Vec<Heading>,
    documents: Vec<Document>,
}

impl View for Analyzer {
    type V = AnalyzerView;

    closed spec fn view(&self) -> AnalyzerView {
        AnalyzerView {
            backlinks: self.backlinks.view(),
            categories: self.categories.view(),
            current_file: self.current_file@,
            current_headings: self.current_headings@.map_values(|h: Heading| h@),
            documents: self.documents@.map_values(|d: Document| d@),
        }
    }
}

impl Analyzer {
    /// Creates an analyzer with nothing recorded and no current file.
    pub fn new() -> (a: Self)
        ensures
            a@ == initial_analysis(),
    {
        let a = Analyzer {
            backlinks: SortedSetMap::new(),
            categories: SortedSetMap::new(),
            current_file: String::new(),
            current_headings: Vec::new(),
            documents: Vec::new(),
        };
        assert(a@.current_headings =~= Seq::<(Seq<char>, Seq<char>)>::empty());
        assert(a@.documents =~= Seq::<(Seq<char>, Seq<(Seq<char>, Seq<char>)>)>::empty());
        a
    }

    /// Sets the file being processed; the headings of the previous file, if
    /// it had any, become its document.
    pub fn set_current_file(&mut self, filename: String)
        ensures
            final(self)@ == with_current_file(old(self)@, filename@),
    {
        let ghost old_view = self@;
        let mut headings: Vec<Heading> = Vec::new();
        std::mem::swap(&mut headings, &mut self.current_headings);
        if !self.current_file.as_str().is_empty() && headings.len() > 0 {
            let file = str_chars(self.current_file.as_str());
            let md: Vec<char> = vec!['.', 'm', 'd'];
            let html: Vec<char> = vec!['.', 'h', 't', 'm', 'l'];
            let path_chars = chars_replace_all(&file, &md, &html);
            let path = string_from_chars(path_chars.as_slice());
            proof {
                assert(old_view.current_file.len() > 0);
                assert(md@ == md_ext());
                assert(html@ == html_ext());
            }
            let ghost old_docs = self.documents@;
            let ghost hs = headings@.map_values(|h: Heading| h@);
            self.documents.push(Document { path, headings });
            assert(self.documents@.map_values(|d: Document| d@) =~= old_docs.map_values(|d: Document| d@).push(
                (path_chars@, hs),
            ));
        }
        self.current_file = filename;
        assert(self@.current_headings =~= Seq::<(Seq<char>, Seq<char>)>::empty());
    }

    /// Records what the items read from the current file's tree say: page
    /// links become backlinks, hashtags in texts become categories, and
    /// headings are kept for the search index.
    pub fn analyze_items(&mut self, items: &Vec<AstItem>)
        ensures
            final(self)@ == apply_items(old(self)@, item_views(items@)),
    {
        let ghost start = self@;
        let mut i: usize = 0;
        while i < items.len()
            invariant
                0 <= i <= items.len(),
                self@ == apply_items(start, item_views(items@).take(i as int)),
            decreases items.len() - i,
        {
            assert(item_views(items@).take(i + 1).drop_last() =~= item_views(items@).take(i as int));
            assert(item_views(items@).take(i + 1).last() == items@[i as int]@);
            let ghost before = self@;
            match &items[i] {
                AstItem::Link(url) => {
                    let u = str_chars(url.as_str());
                    let h = chars_pos(&u, '#');
                    proof {
                        lemma_char_pos(u@, '#');
                    }
                    let base = sub_chars(&u, 0, h);
                    assert(base@ == link_base(url@));
                    let scheme: Vec<char> = vec![':', '/', '/'];
                    let slashes: Vec<char> = vec!['/', '/'];
                    let html: Vec<char> = vec!['.', 'h', 't', 'm', 'l'];
                    assert(html@ == html_ext());
                    if !chars_contains(&base, &scheme) && !chars_starts_with(&base, &slashes) && chars_ends_with(&base, &html) {
                        let target = string_from_chars(base.as_slice());
                        self.backlinks.insert(target.as_str(), self.current_file.as_str());
                    }
                },
                AstItem::Text(text) => {
                    let tags = parse_hashtags(text.as_str());
                    let ghost tag_views = tags@.map_values(|t: Hashtag| t@);
                    let mut k: usize = 0;
                    assert(tag_views.take(0) =~= Seq::<(int, int, Seq<char>)>::empty());
                    while k < tags.len()
                        invariant
                            0 <= k <= tags.len(),
                            tag_views == tags@.map_values(|t: Hashtag| t@),
                            self@.backlinks == before.backlinks,
                            self@.current_file == before.current_file,
                            self@.current_headings == before.current_headings,
                            self@.documents == before.documents,
                            self@.categories == with_categories(before.categories, tag_views.take(k as int), before.current_file),
                        decreases tags.len() - k,
                    {
                        assert(tag_views.take(k + 1).drop_last() =~= tag_views.take(k as int));
                        assert(tag_views.take(k + 1).last() == tags@[k as int]@);
                        self.categories.insert(tags[k].category.as_str(), self.current_file.as_str());
                        k += 1;
                    }
                    assert(tag_views.take(k as int) =~= tag_views);
                },
                AstItem::Heading(text, id) => {
                    let h = Heading { text: string_from_chars(str_chars(text.as_str()).as_slice()), id: string_from_chars(str_chars(id.as_str()).as_slice()) };
                    let ghost old_hs = self.current_headings@;
                    self.current_headings.push(h);
                    assert(self.current_headings@.map_values(|h: Heading| h@) =~= old_hs.map_values(|h: Heading| h@).push((text@, id@)));
                },
            }
            i += 1;
        }
        assert(item_views(items@).take(i as int) =~= item_views(items@));
    }

    /// Analyzes a page's tree, given as what the wiki reads of its nodes in
    /// document order: links, texts and headings, each heading with the
    /// anchor that a fresh comrak anchorizer gives it, are recorded as
    /// `analyze_items` does.
    pub fn analyze_ast(&mut self, nodes: &Vec<NodeKind>)
        ensures
            final(self)@ == apply_items(old(self)@, page_items(nodes@.map_values(|k: NodeKind| k@))),
    {
        let ghost views = nodes@.map_values(|k: NodeKind| k@);
        let mut anchorizer = new_anchorizer();
        let mut items: Vec<AstItem> = Vec::new();
        let mut i: usize = 0;
        while i < nodes.len()
            invariant
                0 <= i <= nodes.len(),
                views == nodes@.map_values(|k: NodeKind| k@),
                item_views(items@) + node_items_from(views, i as int, anchors_used(anchorizer)) == page_items(views),
            decreases nodes.len() - i,
        {
            let ghost before = item_views(items@);
            assert(views[i as int] == nodes@[i as int]@);
            match &nodes[i] {
                NodeKind::Link(url) => {
                    items.push(AstItem::Link(str_to_string(url.as_str())));
                    assert(item_views(items@) =~= before.push(ItemView::Link(url@)));
                },
                NodeKind::Text(text) => {
                    items.push(AstItem::Text(str_to_string(text.as_str())));
                    assert(item_views(items@) =~= before.push(ItemView::Text(text@)));
                },
                NodeKind::Heading(text) => {
                    let id = anchorize(&mut anchorizer, text.as_str());
                    items.push(AstItem::Heading(str_to_string(text.as_str()), id));
                    assert(item_views(items@) =~= before.push(ItemView::Heading(text@, id@)));
                },
                _ => {},
            }
            i += 1;
        }
        assert(item_views(items@) =~= item_views(items@) + node_items_from(views, i as int, anchors_used(anchorizer)));
        self.analyze_items(&items);
    }

    /// The backlinks: target page to the source files linking to it.
    pub fn get_backlinks(&self) -> (r: &SortedSetMap)
        ensures
            r.view() == self@.backlinks,
    {
        &self.backlinks
    }

    /// The categories: category name to the source files carrying it.
    pub fn get_categories(&self) -> (r: &SortedSetMap)
        ensures
            r.view() == self@.categories,
    {
        &self.categories
    }

    /// Finishes the analysis: the documents, with the current file's last.
    pub fn finalize(self) -> (index: SearchIndex)
        ensures
            index@ == documents_with_current(self@),
    {
        let mut documents = self.documents;
        let ghost old_docs = documents@;
        if !self.current_file.as_str().is_empty() && self.current_headings.len() > 0 {
            let file = str_chars(self.current_file.as_str());
            let md: Vec<char> = vec!['.', 'm', 'd'];
            let html: Vec<char> = vec!['.', 'h', 't', 'm', 'l'];
            let path_chars = chars_replace_all(&file, &md, &html);
            let path = string_from_chars(path_chars.as_slice());
            assert(md@ == md_ext());
            assert(html@ == html_ext());
            let ghost hs = self.current_headings@.map_values(|h: Heading| h@);
            documents.push(Document { path, headings: self.current_headings });
            assert(documents@.map_values(|d: Document| d@) =~= old_docs.map_values(|d: Document| d@).push((path_chars@, hs)));
        }
        SearchIndex { documents }
    }
}

} // verus!
