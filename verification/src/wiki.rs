//! Site assembly: which input files become pages and which are copied,
//! how a page is put together from the templates, its rendered body, its
//! category listing and its backlinks, which category pages are generated,
//! and the conversion of a whole wiki over a `FileSystem`.
use vstd::prelude::*;
use crate::text::{
    trim_suffixes, ends_with, join_with, str_chars, chars_trim_suffixes, chars_ends_with, chars_eq, sub_chars,
    string_from_chars, str_to_string, str_eq,
};
use crate::path::{
    file_name, extension, strip_prefix, join_path, join, join_components, path_file_name, path_extension,
    strip_path_prefix,
};
use crate::link_translator::{md_ext, html_ext, translate_links, translate_nodes, translated_nodes, translate_edits};
use crate::sorted_set_map::{str_views, listing, sorted_seq_of, lemma_sorted_seq_exists, SortedSetMap};
use crate::filesystem::{WikiError, FileSystem, walked};
use crate::analyzer::{
    Analyzer, ItemView, SearchIndex, apply_items, with_current_file, analysis_of, documents_with_current, page_items,
    lemma_analysis_finite,
};
use crate::markdown::{wiki_markdown_options, new_arena, parsed_nodes, rendered_html, MarkdownDoc};
use crate::hashtag_linker::{linkify_hashtags, category_url, link_edits};
use serde_json::{Map as JsonMap, Value};

verus! {

/// The name under which a listing shows the source file `name`: the name
/// with every trailing `.md` removed.
pub open spec fn listed_stem(name: Seq<char>) -> Seq<char> {
    trim_suffixes(name, md_ext())
}

/// One entry of a page listing: a link to the page of the source file
/// `name`, labelled with its stem.
pub open spec fn list_item(name: Seq<char>) -> Seq<char> {
    "<li><a href=\""@ + listed_stem(name) + ".html\">"@ + listed_stem(name) + "</a></li>\n"@
}

/// The entries of a page listing, in order.
pub open spec fn list_items(names: Seq<Seq<char>>) -> Seq<char>
    decreases names.len(),
{
    if names.len() == 0 {
        Seq::<char>::empty()
    } else {
        list_items(names.drop_last()) + list_item(names.last())
    }
}

/// The backlinks section of a page: nothing when no page links to it.
pub open spec fn backlinks_section(names: Seq<Seq<char>>) -> Seq<char> {
    if names.len() == 0 {
        Seq::<char>::empty()
    } else {
        "<hr>\n<h2>Linked from:</h2>\n<ul>\n"@ + list_items(names) + "</ul>\n"@
    }
}

/// The category listing of a page: nothing when no page carries its
/// category.
pub open spec fn category_section(names: Seq<Seq<char>>) -> Seq<char> {
    if names.len() == 0 {
        Seq::<char>::empty()
    } else {
        "<h2>Pages in this category:</h2>\n<ul>\n"@ + list_items(names) + "</ul>\n"@
    }
}

/// A whole page: header, body, category listing, backlinks, footer.
pub open spec fn page_html(
    header: Seq<char>,
    body: Seq<char>,
    members: Seq<Seq<char>>,
    linking: Seq<Seq<char>>,
    footer: Seq<char>,
) -> Seq<char> {
    header + body + category_section(members) + backlinks_section(linking) + footer
}

/// Appends the listing entries of `names` to `out`.
pub fn push_list_items(out: &mut String, names: &Vec<String>)
    ensures
        final(out)@ == old(out)@ + list_items(str_views(names@)),
{
    let ghost start = out@;
    let ghost views = str_views(names@);
    let md: Vec<char> = vec!['.', 'm', 'd'];
    assert(md@ == md_ext());
    let mut i: usize = 0;
    while i < names.len()
        invariant
            0 <= i <= names.len(),
            views == str_views(names@),
            md@ == md_ext(),
            out@ == start + list_items(views.take(i as int)),
        decreases names.len() - i,
    {
        assert(views.take(i + 1).drop_last() =~= views.take(i as int));
        assert(views.take(i + 1).last() == names@[i as int]@);
        let stem_chars = chars_trim_suffixes(&str_chars(names[i].as_str()), &md);
        let stem = string_from_chars(stem_chars.as_slice());
        out.append("<li><a href=\"");
        out.append(stem.as_str());
        out.append(".html\">");
        out.append(stem.as_str());
        out.append("</a></li>\n");
        assert(out@ =~= start + list_items(views.take(i as int)) + list_item(views[i as int]));
        i += 1;
    }
    assert(views.take(i as int) =~= views);
}

/// Appends the backlinks section listing `names` to `out`.
pub fn push_backlinks_section(out: &mut String, names: &Vec<String>)
    ensures
        final(out)@ == old(out)@ + backlinks_section(str_views(names@)),
{
    if names.len() > 0 {
        out.append("<hr>\n<h2>Linked from:</h2>\n<ul>\n");
        push_list_items(out, names);
        out.append("</ul>\n");
    }
}

/// Appends the category listing of `names` to `out`.
pub fn push_category_section(out: &mut String, names: &Vec<String>)
    ensures
        final(out)@ == old(out)@ + category_section(str_views(names@)),
{
    if names.len() > 0 {
        out.append("<h2>Pages in this category:</h2>\n<ul>\n");
        push_list_items(out, names);
        out.append("</ul>\n");
    }
}

/// The characters of each pair of strings.
pub open spec fn pairs_view(v: Seq<(String, String)>) -> Seq<(Seq<char>, Seq<char>)> {
    v.map_values(|p: (String, String)| (p.0@, p.1@))
}

/// The page name of a source file: its name without the `.md` extension.
pub open spec fn source_stem(name: Seq<char>) -> Seq<char> {
    if ends_with(name, md_ext()) {
        name.take(name.len() - 3)
    } else {
        name
    }
}

/// The file name of the page made from the source file `name`.
pub open spec fn page_name(name: Seq<char>) -> Seq<char> {
    source_stem(name) + html_ext()
}

/// The output of the source file `name` rendered to `body`: its page name,
/// and the page with the listing of the category named like the page and
/// the sources linking to the page.
pub open spec fn source_page_output(
    header: Seq<char>,
    footer: Seq<char>,
    name: Seq<char>,
    body: Seq<char>,
    backlinks: Map<Seq<char>, Set<Seq<char>>>,
    categories: Map<Seq<char>, Set<Seq<char>>>,
) -> (Seq<char>, Seq<char>) {
    (
        page_name(name),
        page_html(header, body, listing(categories, source_stem(name)), listing(backlinks, page_name(name)), footer),
    )
}

/// The outputs of the rendered source files, in order.
pub open spec fn source_pages_output(
    header: Seq<char>,
    footer: Seq<char>,
    pages: Seq<(Seq<char>, Seq<char>)>,
    backlinks: Map<Seq<char>, Set<Seq<char>>>,
    categories: Map<Seq<char>, Set<Seq<char>>>,
) -> Seq<(Seq<char>, Seq<char>)>
    decreases pages.len(),
{
    if pages.len() == 0 {
        Seq::<(Seq<char>, Seq<char>)>::empty()
    } else {
        source_pages_output(header, footer, pages.drop_last(), backlinks, categories).push(
            source_page_output(header, footer, pages.last().0, pages.last().1, backlinks, categories),
        )
    }
}

/// Some source file has the page named `k`.
pub open spec fn has_source_page(pages: Seq<(Seq<char>, Seq<char>)>, k: Seq<char>) -> bool {
    exists|i: int| 0 <= i < pages.len() && source_stem(#[trigger] pages[i].0) == k
}

/// The title of a generated category page.
pub open spec fn category_title(k: Seq<char>) -> Seq<char> {
    "<h1>"@ + k + "</h1>\n"@
}

/// The generated page of category `k`: its title, its listing, and the
/// sources linking to it.
pub open spec fn category_page_output(
    header: Seq<char>,
    footer: Seq<char>,
    k: Seq<char>,
    backlinks: Map<Seq<char>, Set<Seq<char>>>,
    categories: Map<Seq<char>, Set<Seq<char>>>,
) -> (Seq<char>, Seq<char>) {
    (
        k + html_ext(),
        page_html(header, category_title(k), listing(categories, k), listing(backlinks, k + html_ext()), footer),
    )
}

/// The generated pages of the categories `keys` that no source file has a
/// page for, in order.
pub open spec fn category_pages_output(
    header: Seq<char>,
    footer: Seq<char>,
    keys: Seq<Seq<char>>,
    pages: Seq<(Seq<char>, Seq<char>)>,
    backlinks: Map<Seq<char>, Set<Seq<char>>>,
    categories: Map<Seq<char>, Set<Seq<char>>>,
) -> Seq<(Seq<char>, Seq<char>)>
    decreases keys.len(),
{
    if keys.len() == 0 {
        Seq::<(Seq<char>, Seq<char>)>::empty()
    } else if has_source_page(pages, keys.last()) {
        category_pages_output(header, footer, keys.drop_last(), pages, backlinks, categories)
    } else {
        category_pages_output(header, footer, keys.drop_last(), pages, backlinks, categories).push(
            category_page_output(header, footer, keys.last(), backlinks, categories),
        )
    }
}

/// Every output page of the site: the rendered source files in order, then
/// the generated category pages in the order of their names.
pub open spec fn site_output(
    header: Seq<char>,
    footer: Seq<char>,
    pages: Seq<(Seq<char>, Seq<char>)>,
    backlinks: Map<Seq<char>, Set<Seq<char>>>,
    categories: Map<Seq<char>, Set<Seq<char>>>,
) -> Seq<(Seq<char>, Seq<char>)> {
    source_pages_output(header, footer, pages, backlinks, categories) + category_pages_output(
        header,
        footer,
        sorted_seq_of(categories.dom()),
        pages,
        backlinks,
        categories,
    )
}

/// A template file: `header.html` or `footer.html`, wherever it lies.
pub open spec fn is_template(p: Seq<char>) -> bool {
    file_name(p) == Some("header.html"@) || file_name(p) == Some("footer.html"@)
}

/// The views of a list of assets: path and components under the input.
pub open spec fn assets_view(v: Seq<(String, Vec<Vec<char>>)>) -> Seq<(Seq<char>, Seq<Seq<char>>)> {
    v.map_values(|a: (String, Vec<Vec<char>>)| (a.0@, a.1@.map_values(|c: Vec<char>| c@)))
}

/// What the files found under `base` are for, in order: the markdown
/// files directly under `base` become pages (path, file name); every other
/// file that is no template is an asset (path, components under `base`).
pub open spec fn plan_of(paths: Seq<Seq<char>>, base: Seq<char>) -> (
    Seq<(Seq<char>, Seq<char>)>,
    Seq<(Seq<char>, Seq<Seq<char>>)>,
)
    decreases paths.len(),
{
    if paths.len() == 0 {
        (Seq::<(Seq<char>, Seq<char>)>::empty(), Seq::<(Seq<char>, Seq<Seq<char>>)>::empty())
    } else {
        let prev = plan_of(paths.drop_last(), base);
        let p = paths.last();
        if is_template(p) {
            prev
        } else {
            match strip_prefix(p, base) {
                Some(rel) => if rel.len() == 1 && extension(p) == Some("md"@) {
                    (prev.0.push((p, rel[0])), prev.1)
                } else {
                    (prev.0, prev.1.push((p, rel)))
                },
                None => prev,
            }
        }
    }
}

/// A source page: a markdown file directly under `base`.
pub open spec fn is_source_page(p: Seq<char>, base: Seq<char>) -> bool {
    &&& !is_template(p)
    &&& strip_prefix(p, base) matches Some(rel) && rel.len() == 1
    &&& extension(p) == Some("md"@)
}

/// An asset: any other file under `base` that is no template.
pub open spec fn is_asset(p: Seq<char>, base: Seq<char>) -> bool {
    !is_template(p) && strip_prefix(p, base) is Some && !is_source_page(p, base)
}

/// Law: the source pages are exactly the markdown files directly under the
/// input, each with its file name; the assets are exactly the other files
/// under the input, each with its components; templates are neither.
pub proof fn law_plan_sorts_inputs(paths: Seq<Seq<char>>, base: Seq<char>)
    ensures
        ({
            let plan = plan_of(paths, base);
            &&& forall|i: int| 0 <= i < plan.0.len() ==> {
                let (p, name) = #[trigger] plan.0[i];
                &&& paths.contains(p)
                &&& is_source_page(p, base)
                &&& strip_prefix(p, base) == Some(seq![name])
            }
            &&& forall|i: int| 0 <= i < plan.1.len() ==> {
                let (p, rel) = #[trigger] plan.1[i];
                &&& paths.contains(p)
                &&& is_asset(p, base)
                &&& strip_prefix(p, base) == Some(rel)
            }
            &&& forall|j: int| 0 <= j < paths.len() && #[trigger] is_source_page(paths[j], base) ==> exists|i: int|
                0 <= i < plan.0.len() && (#[trigger] plan.0[i]).0 == paths[j]
            &&& forall|j: int| 0 <= j < paths.len() && #[trigger] is_asset(paths[j], base) ==> exists|i: int|
                0 <= i < plan.1.len() && (#[trigger] plan.1[i]).0 == paths[j]
        }),
    decreases paths.len(),
{
    if paths.len() > 0 {
        let init = paths.drop_last();
        law_plan_sorts_inputs(init, base);
        let prev = plan_of(init, base);
        let plan = plan_of(paths, base);
        let p = paths.last();
        assert forall|q: Seq<char>| init.contains(q) implies paths.contains(q) by {
            let t = choose|t: int| 0 <= t < init.len() && init[t] == q;
            assert(paths[t] == q);
        }
        assert(paths.contains(p)) by {
            assert(paths[paths.len() - 1] == p);
        }
        assert forall|j: int| 0 <= j < paths.len() && #[trigger] is_source_page(paths[j], base) implies exists|i: int|
            0 <= i < plan.0.len() && (#[trigger] plan.0[i]).0 == paths[j] by {
            if j < paths.len() - 1 {
                assert(init[j] == paths[j]);
                let i = choose|i: int| 0 <= i < prev.0.len() && (#[trigger] prev.0[i]).0 == init[j];
                assert(plan.0[i] == prev.0[i]);
            } else {
                assert(plan.0[plan.0.len() - 1].0 == p);
            }
        }
        assert forall|j: int| 0 <= j < paths.len() && #[trigger] is_asset(paths[j], base) implies exists|i: int|
            0 <= i < plan.1.len() && (#[trigger] plan.1[i]).0 == paths[j] by {
            if j < paths.len() - 1 {
                assert(init[j] == paths[j]);
                let i = choose|i: int| 0 <= i < prev.1.len() && (#[trigger] prev.1[i]).0 == init[j];
                assert(plan.1[i] == prev.1[i]);
            } else {
                assert(plan.1[plan.1.len() - 1].0 == p);
            }
        }
        assert forall|i: int| 0 <= i < plan.0.len() implies {
            let (q, name) = #[trigger] plan.0[i];
            &&& paths.contains(q)
            &&& is_source_page(q, base)
            &&& strip_prefix(q, base) == Some(seq![name])
        } by {
            if i < prev.0.len() {
                assert(plan.0[i] == prev.0[i]);
            } else {
                let rel = strip_prefix(p, base)->0;
                assert(rel =~= seq![rel[0]]);
            }
        }
        assert forall|i: int| 0 <= i < plan.1.len() implies {
            let (q, rel) = #[trigger] plan.1[i];
            &&& paths.contains(q)
            &&& is_asset(q, base)
            &&& strip_prefix(q, base) == Some(rel)
        } by {
            if i < prev.1.len() {
                assert(plan.1[i] == prev.1[i]);
            }
        }
    }
}

/// A file that is no template and does not lie under `base`.
pub open spec fn lies_outside(p: Seq<char>, base: Seq<char>) -> bool {
    !is_template(p) && strip_prefix(p, base) is None
}

/// The source pages and assets of a wiki.
pub struct InputPlan {
    /// Markdown files directly under the input directory: path, file name.
    pub pages: Vec<(String, String)>,
    /// Other files: path, components under the input directory.
    pub assets: Vec<(String, Vec<Vec<char>>)>,
}

/// Sorts the files found under `base` into source pages and assets, as
/// `plan_of` says; a file that is no template and does not lie under
/// `base` is an error.
pub fn plan_inputs(paths: &Vec<String>, base: &str) -> (r: Result<InputPlan, WikiError>)
    ensures
        match r {
            Ok(plan) => {
                &&& forall|i: int| 0 <= i < paths@.len() ==> !lies_outside(#[trigger] paths@[i]@, base@)
                &&& (pairs_view(plan.pages@), assets_view(plan.assets@)) == plan_of(str_views(paths@), base@)
            },
            Err(e) => exists|i: int|
                0 <= i < paths@.len() && lies_outside(#[trigger] paths@[i]@, base@) && (e matches WikiError::NotUnderInput(
                    q,
                ) && q@ == paths@[i]@),
        },
{
    let ghost ps = str_views(paths@);
    let mut pages: Vec<(String, String)> = Vec::new();
    let mut assets: Vec<(String, Vec<Vec<char>>)> = Vec::new();
    let mut i: usize = 0;
    while i < paths.len()
        invariant
            0 <= i <= paths.len(),
            ps == str_views(paths@),
            forall|j: int| 0 <= j < i ==> !lies_outside(#[trigger] paths@[j]@, base@),
            (pairs_view(pages@), assets_view(assets@)) == plan_of(ps.take(i as int), base@),
        decreases paths.len() - i,
    {
        assert(ps.take(i + 1).drop_last() =~= ps.take(i as int));
        assert(ps.take(i + 1).last() == paths@[i as int]@);
        let p = paths[i].as_str();
        let template = match path_file_name(p) {
            Some(n) => str_eq(n.as_str(), "header.html") || str_eq(n.as_str(), "footer.html"),
            None => false,
        };
        if !template {
            match strip_path_prefix(p, base) {
                Some(rel) => {
                    let md = match path_extension(p) {
                        Some(e) => str_eq(e.as_str(), "md"),
                        None => false,
                    };
                    if rel.len() == 1 && md {
                        let ghost before = pairs_view(pages@);
                        let name = string_from_chars(rel[0].as_slice());
                        pages.push((str_to_string(p), name));
                        assert(pairs_view(pages@) =~= before.push((p@, rel@[0]@)));
                    } else {
                        let ghost before = assets_view(assets@);
                        let ghost rv = rel@.map_values(|c: Vec<char>| c@);
                        assets.push((str_to_string(p), rel));
                        assert(assets_view(assets@) =~= before.push((p@, rv)));
                    }
                },
                None => {
                    return Err(WikiError::NotUnderInput(str_to_string(p)));
                },
            }
        }
        i += 1;
    }
    assert(ps.take(i as int) =~= ps);
    Ok(InputPlan { pages, assets })
}

/// The outputs of the source files are, position by position, the outputs
/// of each source file.
proof fn lemma_source_pages_output(
    header: Seq<char>,
    footer: Seq<char>,
    pages: Seq<(Seq<char>, Seq<char>)>,
    backlinks: Map<Seq<char>, Set<Seq<char>>>,
    categories: Map<Seq<char>, Set<Seq<char>>>,
)
    ensures
        source_pages_output(header, footer, pages, backlinks, categories).len() == pages.len(),
        forall|j: int| 0 <= j < pages.len() ==> #[trigger] source_pages_output(header, footer, pages, backlinks, categories)[j]
            == source_page_output(header, footer, pages[j].0, pages[j].1, backlinks, categories),
    decreases pages.len(),
{
    if pages.len() > 0 {
        lemma_source_pages_output(header, footer, pages.drop_last(), backlinks, categories);
        assert forall|j: int| 0 <= j < pages.len() implies #[trigger] source_pages_output(header, footer, pages, backlinks, categories)[j]
            == source_page_output(header, footer, pages[j].0, pages[j].1, backlinks, categories) by {
            if j < pages.len() - 1 {
                assert(pages.drop_last()[j] == pages[j]);
            }
        }
    }
}

/// The page of each category in `keys` without a source page is generated.
proof fn lemma_category_pages_output(
    header: Seq<char>,
    footer: Seq<char>,
    keys: Seq<Seq<char>>,
    pages: Seq<(Seq<char>, Seq<char>)>,
    backlinks: Map<Seq<char>, Set<Seq<char>>>,
    categories: Map<Seq<char>, Set<Seq<char>>>,
    t: int,
)
    requires
        0 <= t < keys.len(),
        !has_source_page(pages, keys[t]),
    ensures
        category_pages_output(header, footer, keys, pages, backlinks, categories).contains(
            category_page_output(header, footer, keys[t], backlinks, categories),
        ),
    decreases keys.len(),
{
    let out = category_pages_output(header, footer, keys, pages, backlinks, categories);
    let page = category_page_output(header, footer, keys[t], backlinks, categories);
    if t == keys.len() - 1 {
        assert(out[out.len() - 1] == page);
    } else {
        let init = keys.drop_last();
        assert(init[t] == keys[t]);
        lemma_category_pages_output(header, footer, init, pages, backlinks, categories, t);
        let prev = category_pages_output(header, footer, init, pages, backlinks, categories);
        let k = choose|k: int| 0 <= k < prev.len() && prev[k] == page;
        assert(out[k] == page);
    }
}

/// Law: every category gets a page named after it that lists the pages
/// carrying it and those linking to it: the page of the source file of that
/// name, or else a generated one.
pub proof fn law_every_category_has_a_page(
    header: Seq<char>,
    footer: Seq<char>,
    pages: Seq<(Seq<char>, Seq<char>)>,
    backlinks: Map<Seq<char>, Set<Seq<char>>>,
    categories: Map<Seq<char>, Set<Seq<char>>>,
    k: Seq<char>,
)
    requires
        categories.dom().finite(),
        categories.contains_key(k),
    ensures
        exists|i: int|
            0 <= i < site_output(header, footer, pages, backlinks, categories).len() && {
                let out = #[trigger] site_output(header, footer, pages, backlinks, categories)[i];
                &&& out.0 == k + html_ext()
                &&& exists|body: Seq<char>|
                    out.1 == #[trigger] page_html(header, body, listing(categories, k), listing(backlinks, k + html_ext()), footer)
            },
{
    let site = site_output(header, footer, pages, backlinks, categories);
    let sources = source_pages_output(header, footer, pages, backlinks, categories);
    let keys = sorted_seq_of(categories.dom());
    lemma_source_pages_output(header, footer, pages, backlinks, categories);
    if has_source_page(pages, k) {
        let j = choose|j: int| 0 <= j < pages.len() && source_stem(#[trigger] pages[j].0) == k;
        assert(site[j] == sources[j]);
        assert(site[j] == (
            k + html_ext(),
            page_html(header, pages[j].1, listing(categories, k), listing(backlinks, k + html_ext()), footer),
        ));
    } else {
        lemma_sorted_seq_exists(categories.dom());
        assert(keys.to_set().contains(k));
        let t = choose|t: int| 0 <= t < keys.len() && keys[t] == k;
        lemma_category_pages_output(header, footer, keys, pages, backlinks, categories, t);
        let generated = category_pages_output(header, footer, keys, pages, backlinks, categories);
        let page = category_page_output(header, footer, k, backlinks, categories);
        let g = choose|g: int| 0 <= g < generated.len() && generated[g] == page;
        assert(site[sources.len() + g] == page);
    }
}

/// Law: the link of a hashtag leads to the page of its category, whether
/// that page is generated or made from the source file named after the
/// category.
pub proof fn law_hashtag_links_lead_to_category_pages(
    header: Seq<char>,
    footer: Seq<char>,
    k: Seq<char>,
    backlinks: Map<Seq<char>, Set<Seq<char>>>,
    categories: Map<Seq<char>, Set<Seq<char>>>,
)
    ensures
        category_url(k) == category_page_output(header, footer, k, backlinks, categories).0,
        category_url(k) == page_name(k + md_ext()),
{
    let name = k + md_ext();
    assert(md_ext().len() == 3);
    assert(name.skip(name.len() - 3) =~= md_ext());
    assert(ends_with(name, md_ext()));
    assert(name.take(name.len() - 3) =~= k);
}

/// The characters of `name` without its `.md` extension.
fn stem_chars(name: &str) -> (r: Vec<char>)
    ensures
        r@ == source_stem(name@),
{
    let v = str_chars(name);
    let md: Vec<char> = vec!['.', 'm', 'd'];
    assert(md@ == md_ext());
    if chars_ends_with(&v, &md) {
        sub_chars(&v, 0, v.len() - 3)
    } else {
        v
    }
}

/// Puts a page together: header, body, the category listing and backlinks
/// found under the given keys, footer.
fn assemble_page(
    header: &str,
    body: &str,
    footer: &str,
    category_key: &str,
    page_key: &str,
    backlinks: &SortedSetMap,
    categories: &SortedSetMap,
) -> (r: String)
    ensures
        r@ == page_html(
            header@,
            body@,
            listing(categories.view(), category_key@),
            listing(backlinks.view(), page_key@),
            footer@,
        ),
{
    let mut out = str_to_string(header);
    out.append(body);
    match categories.get(category_key) {
        Some(members) => push_category_section(&mut out, members),
        None => {},
    }
    match backlinks.get(page_key) {
        Some(linking) => push_backlinks_section(&mut out, linking),
        None => {},
    }
    out.append(footer);
    out
}

/// The output of the source file `name` rendered to `body`.
pub fn source_page(
    header: &str,
    footer: &str,
    name: &str,
    body: &str,
    backlinks: &SortedSetMap,
    categories: &SortedSetMap,
) -> (r: (String, String))
    ensures
        (r.0@, r.1@) == source_page_output(header@, footer@, name@, body@, backlinks.view(), categories.view()),
{
    let stem = string_from_chars(stem_chars(name).as_slice());
    let mut page = str_to_string(stem.as_str());
    page.append(".html");
    assert(".html"@ == html_ext()) by {
        reveal_strlit(".html");
    }
    let content = assemble_page(header, body, footer, stem.as_str(), page.as_str(), backlinks, categories);
    (page, content)
}

/// The generated page of category `k`.
pub fn category_page(
    header: &str,
    footer: &str,
    k: &str,
    backlinks: &SortedSetMap,
    categories: &SortedSetMap,
) -> (r: (String, String))
    ensures
        (r.0@, r.1@) == category_page_output(header@, footer@, k@, backlinks.view(), categories.view()),
{
    let mut page = str_to_string(k);
    page.append(".html");
    assert(".html"@ == html_ext()) by {
        reveal_strlit(".html");
    }
    let mut title = str_to_string("<h1>");
    title.append(k);
    title.append("</h1>\n");
    let content = assemble_page(header, title.as_str(), footer, k, page.as_str(), backlinks, categories);
    (page, content)
}

/// Whether some source file has the page named `k`.
fn find_source_page(pages: &Vec<(String, String)>, k: &str) -> (r: bool)
    ensures
        r == has_source_page(pairs_view(pages@), k@),
{
    let kv = str_chars(k);
    let ghost ps = pairs_view(pages@);
    let mut i: usize = 0;
    while i < pages.len()
        invariant
            0 <= i <= pages.len(),
            kv@ == k@,
            ps == pairs_view(pages@),
            forall|j: int| 0 <= j < i ==> source_stem(#[trigger] ps[j].0) != k@,
        decreases pages.len() - i,
    {
        assert(ps[i as int].0 == pages@[i as int].0@);
        if chars_eq(&stem_chars(pages[i].0.as_str()), &kv) {
            return true;
        }
        i += 1;
    }
    false
}

/// Every output page of the site, as (file name, contents): the rendered
/// source files `pages` (file name, HTML body) in order, then the pages of
/// the categories that no source file has a page for, by name.
pub fn assemble_site(
    header: &str,
    footer: &str,
    pages: &Vec<(String, String)>,
    backlinks: &SortedSetMap,
    categories: &SortedSetMap,
) -> (r: Vec<(String, String)>)
    ensures
        pairs_view(r@) == site_output(header@, footer@, pairs_view(pages@), backlinks.view(), categories.view()),
{
    let ghost ps = pairs_view(pages@);
    let ghost bl = backlinks.view();
    let ghost cs = categories.view();
    let mut out: Vec<(String, String)> = Vec::new();
    let mut i: usize = 0;
    while i < pages.len()
        invariant
            0 <= i <= pages.len(),
            ps == pairs_view(pages@),
            bl == backlinks.view(),
            cs == categories.view(),
            pairs_view(out@) == source_pages_output(header@, footer@, ps.take(i as int), bl, cs),
        decreases pages.len() - i,
    {
        assert(ps.take(i + 1).drop_last() =~= ps.take(i as int));
        assert(ps.take(i + 1).last() == (pages@[i as int].0@, pages@[i as int].1@));
        let page = source_page(header, footer, pages[i].0.as_str(), pages[i].1.as_str(), backlinks, categories);
        let ghost before = pairs_view(out@);
        out.push(page);
        assert(pairs_view(out@) =~= before.push((page.0@, page.1@)));
        i += 1;
    }
    assert(ps.take(i as int) =~= ps);
    let ghost sources = pairs_view(out@);
    let keys = categories.keys();
    let ghost kv = str_views(keys@);
    let mut j: usize = 0;
    while j < keys.len()
        invariant
            0 <= j <= keys.len(),
            ps == pairs_view(pages@),
            bl == backlinks.view(),
            cs == categories.view(),
            kv == str_views(keys@),
            pairs_view(out@) == sources + category_pages_output(header@, footer@, kv.take(j as int), ps, bl, cs),
        decreases keys.len() - j,
    {
        assert(kv.take(j + 1).drop_last() =~= kv.take(j as int));
        assert(kv.take(j + 1).last() == keys@[j as int]@);
        if !find_source_page(pages, keys[j].as_str()) {
            let page = category_page(header, footer, keys[j].as_str(), backlinks, categories);
            let ghost before = pairs_view(out@);
            out.push(page);
            assert(pairs_view(out@) =~= before.push((page.0@, page.1@)));
        }
        j += 1;
    }
    assert(kv.take(j as int) =~= kv);
    out
}

/// The header used when the input has no `header.html`.
pub open spec fn default_header() -> Seq<char> {
    "<!DOCTYPE html>\n<html>\n<head>\n<meta charset=\"UTF-8\">\n<title>Wiki</title>\n</head>\n<body>\n"@
}

/// The footer used when the input has no `footer.html`.
pub open spec fn default_footer() -> Seq<char> {
    "</body>\n</html>\n"@
}

/// The header used when the input has no `header.html`.
pub fn default_header_html() -> (r: String)
    ensures
        r@ == default_header(),
{
    str_to_string("<!DOCTYPE html>\n<html>\n<head>\n<meta charset=\"UTF-8\">\n<title>Wiki</title>\n</head>\n<body>\n")
}

/// The footer used when the input has no `footer.html`.
pub fn default_footer_html() -> (r: String)
    ensures
        r@ == default_footer(),
{
    str_to_string("</body>\n</html>\n")
}

/// Where an asset with the components `rel` under the input goes: the
/// directory to create, and the file to copy to, both under `output_dir`.
pub open spec fn asset_destination(output_dir: Seq<char>, rel: Seq<Seq<char>>) -> (Seq<char>, Seq<char>) {
    (
        if rel.len() > 1 {
            join_path(output_dir, join_with(rel.drop_last(), '/'))
        } else {
            output_dir
        },
        join_path(output_dir, join_with(rel, '/')),
    )
}

/// The directory to create and the file to copy to for an asset with the
/// components `rel` under the input.
pub fn asset_paths(output_dir: &str, rel: &Vec<Vec<char>>) -> (r: (String, String))
    ensures
        (r.0@, r.1@) == asset_destination(output_dir@, rel@.map_values(|c: Vec<char>| c@)),
{
    let ghost views = rel@.map_values(|c: Vec<char>| c@);
    let dest = join(output_dir, join_components(rel).as_str());
    if rel.len() > 1 {
        let mut dir: Vec<Vec<char>> = Vec::new();
        let mut i: usize = 0;
        while i + 1 < rel.len()
            invariant
                0 <= i < rel.len(),
                views == rel@.map_values(|c: Vec<char>| c@),
                dir@.map_values(|c: Vec<char>| c@) == views.take(i as int),
            decreases rel.len() - i,
        {
            let ghost before = dir@.map_values(|c: Vec<char>| c@);
            let c = sub_chars(&rel[i], 0, rel[i].len());
            assert(c@ =~= views[i as int]);
            dir.push(c);
            assert(dir@.map_values(|c: Vec<char>| c@) =~= before.push(views[i as int]));
            assert(views.take(i + 1) =~= views.take(i as int).push(views[i as int]));
            i += 1;
        }
        assert(views.take(i as int) =~= views.drop_last());
        (join(output_dir, join_components(&dir).as_str()), dest)
    } else {
        (str_to_string(output_dir), dest)
    }
}

/// What `serde_json::to_string_pretty` prints for the search index
/// `docs` written as the JSON object
/// `{"documents": [{"path": .., "headings": [{"text": .., "id": ..}]}]}`,
/// with its fields in that order.
pub uninterp spec fn index_json(docs: Seq<(Seq<char>, Seq<(Seq<char>, Seq<char>)>)>) -> Seq<char>;

/// The search index as pretty-printed JSON, by `serde_json::to_string_pretty`
/// of the object that `index_json` describes (serde_json's `preserve_order`
/// keeps the fields in the order they are put in); its result is named by
/// `index_json` of the index. Printing a JSON value into a string cannot fail.
#[verifier::external_body]
fn search_index_json(index: &SearchIndex) -> (r: String)
    ensures
        r@ == index_json(index@),
{
    let documents = index.documents.iter().map(|d| {
        let hs = d.headings.iter().map(|h| {
            Value::Object(JsonMap::from_iter([("text".into(), h.text.as_str().into()), ("id".into(), h.id.as_str().into())]))
        });
        Value::Object(JsonMap::from_iter([("path".into(), d.path.as_str().into()), ("headings".into(), hs.collect())]))
    });
    let root = JsonMap::from_iter([("documents".into(), documents.collect())]);
    serde_json::to_string_pretty(&Value::Object(root)).unwrap_or_default()
}

/// The search data file for the index `docs`: a script that sets
/// `window.SEARCH_INDEX_DATA` to its JSON.
pub open spec fn search_data(docs: Seq<(Seq<char>, Seq<(Seq<char>, Seq<char>)>)>) -> Seq<char> {
    "window.SEARCH_INDEX_DATA = "@ + index_json(docs) + ";"@
}

/// The files after the search data of `docs` is written to `index_path`,
/// when there is one.
pub open spec fn with_search_data(
    files: Map<Seq<char>, Seq<char>>,
    index_path: Option<Seq<char>>,
    docs: Seq<(Seq<char>, Seq<(Seq<char>, Seq<char>)>)>,
) -> Map<Seq<char>, Seq<char>> {
    match index_path {
        Some(p) => files.insert(p, search_data(docs)),
        None => files,
    }
}

/// The characters of an optional string slice.
pub open spec fn opt_str_view(o: Option<&str>) -> Option<Seq<char>> {
    match o {
        Some(s) => Some(s@),
        None => None,
    }
}

/// The search data script: the JSON of the search index assigned to
/// `window.SEARCH_INDEX_DATA`.
pub fn search_data_script(json: &str) -> (r: String)
    ensures
        r@ == "window.SEARCH_INDEX_DATA = "@ + json@ + ";"@,
{
    let mut out = str_to_string("window.SEARCH_INDEX_DATA = ");
    out.append(json);
    out.append(";");
    out
}

/// The items that the analyzer reads from the markdown source `md`: those
/// of the nodes that comrak parses with the wiki's dialect, once their link
/// targets are translated.
pub open spec fn markdown_items(md: Seq<char>) -> Seq<ItemView> {
    page_items(translated_nodes(parsed_nodes(md, true, true)))
}

/// The HTML body of the markdown source `md`: what comrak formats of the
/// document it parses with the wiki's dialect once its link and image
/// targets are translated and its hashtags are links.
pub open spec fn page_body(md: Seq<char>) -> Seq<char> {
    let parsed = parsed_nodes(md, true, true);
    rendered_html(
        md,
        true,
        true,
        Some(Seq::<char>::empty()),
        translate_edits(parsed) + link_edits(translated_nodes(parsed)),
    )
}

/// Renders the markdown source file `file_name` to its HTML body: parses it
/// with the wiki's dialect, turns `.md` links into `.html` links, has the
/// analyzer record the file's links, hashtags and headings, turns hashtags
/// into links to their category pages, and formats the tree as HTML.
pub fn render_page(analyzer: &mut Analyzer, file_name: String, markdown: &str) -> (r: String)
    ensures
        final(analyzer)@ == apply_items(with_current_file(old(analyzer)@, file_name@), markdown_items(markdown@)),
        r@ == page_body(markdown@),
{
    let ghost name = file_name@;
    analyzer.set_current_file(file_name);
    assert(analyzer@ == with_current_file(old(analyzer)@, name));
    let dialect = wiki_markdown_options();
    let arena = new_arena();
    let mut doc = MarkdownDoc::parse(&arena, markdown, &dialect);
    proof {
        let p = dialect.header_id_prefix->0;
        assert(p@ =~= Seq::<char>::empty());
    }
    let nodes = doc.read_nodes();
    translate_links(&mut doc, &nodes);
    let translated = translate_nodes(&nodes);
    analyzer.analyze_ast(&translated);
    assert(doc@.nodes.len() <= usize::MAX);
    linkify_hashtags(&mut doc, &translated);
    doc.render()
}

/// The text of the template at `path`, or `default` when there is none.
pub open spec fn template(files: Map<Seq<char>, Seq<char>>, path: Seq<char>, default: Seq<char>) -> Seq<char> {
    if files.contains_key(path) {
        files[path]
    } else {
        default
    }
}

/// The files once each output page is written under `output_dir`, in
/// order.
pub open spec fn written(
    files: Map<Seq<char>, Seq<char>>,
    site: Seq<(Seq<char>, Seq<char>)>,
    output_dir: Seq<char>,
) -> Map<Seq<char>, Seq<char>>
    decreases site.len(),
{
    if site.len() == 0 {
        files
    } else {
        written(files, site.drop_last(), output_dir).insert(join_path(output_dir, site.last().0), site.last().1)
    }
}

/// The files once each asset is copied to its destination under
/// `output_dir`, in order.
pub open spec fn copied(
    files: Map<Seq<char>, Seq<char>>,
    assets: Seq<(Seq<char>, Seq<Seq<char>>)>,
    output_dir: Seq<char>,
) -> Map<Seq<char>, Seq<char>>
    decreases assets.len(),
{
    if assets.len() == 0 {
        files
    } else {
        let before = copied(files, assets.drop_last(), output_dir);
        before.insert(asset_destination(output_dir, assets.last().1).1, before[assets.last().0])
    }
}

/// The rendered source pages: each source file's name with its body.
pub open spec fn rendered_pages(names: Seq<Seq<char>>, bodies: Seq<Seq<char>>) -> Seq<(Seq<char>, Seq<char>)> {
    Seq::new(names.len(), |i: int| (names[i], bodies[i]))
}

/// The file names of the source pages of a plan.
pub open spec fn page_names(plan: (Seq<(Seq<char>, Seq<char>)>, Seq<(Seq<char>, Seq<Seq<char>>)>)) -> Seq<Seq<char>> {
    plan.0.map_values(|p: (Seq<char>, Seq<char>)| p.1)
}

/// What the analyzer reads from each source page: the items of the
/// markdown in the file at the page's path.
pub open spec fn source_items(files: Map<Seq<char>, Seq<char>>, pages: Seq<(Seq<char>, Seq<char>)>) -> Seq<
    Seq<ItemView>,
> {
    pages.map_values(|p: (Seq<char>, Seq<char>)| markdown_items(files[p.0]))
}

/// The HTML body of each source page: that of the markdown in the file at
/// the page's path.
pub open spec fn source_bodies(files: Map<Seq<char>, Seq<char>>, pages: Seq<(Seq<char>, Seq<char>)>) -> Seq<Seq<char>> {
    pages.map_values(|p: (Seq<char>, Seq<char>)| page_body(files[p.0]))
}

/// A conversion of the wiki under `input_dir` in `files` to `output_dir`,
/// given what the walk found (`paths`): the files afterwards and the
/// documents of the search index. Each source page's body is the HTML of
/// its markdown, and backlinks, categories and headings are those that the
/// analysis of each source page's markdown gives, page after page.
pub open spec fn conversion(
    files: Map<Seq<char>, Seq<char>>,
    input_dir: Seq<char>,
    output_dir: Seq<char>,
    paths: Seq<Seq<char>>,
) -> (Map<Seq<char>, Seq<char>>, Seq<(Seq<char>, Seq<(Seq<char>, Seq<char>)>)>) {
    let plan = plan_of(paths, input_dir);
    let st = analysis_of(page_names(plan), source_items(files, plan.0));
    let header = template(files, join_path(input_dir, "header.html"@), default_header());
    let footer = template(files, join_path(input_dir, "footer.html"@), default_footer());
    let site = site_output(
        header,
        footer,
        rendered_pages(page_names(plan), source_bodies(files, plan.0)),
        st.backlinks,
        st.categories,
    );
    (copied(written(files, site, output_dir), plan.1, output_dir), documents_with_current(st))
}

/// What the walk of a conversion finds: each file that lies under
/// `input_dir` and that no ignore pattern matches, once.
pub open spec fn walk_result(
    files: Map<Seq<char>, Seq<char>>,
    input_dir: Seq<char>,
    ignore_patterns: Seq<String>,
    paths: Seq<Seq<char>>,
) -> bool {
    &&& paths.no_duplicates()
    &&& paths.to_set() == walked(files, input_dir, ignore_patterns)
}

/// Writing pages leaves a file at the place of each page.
proof fn lemma_written_has(
    files: Map<Seq<char>, Seq<char>>,
    site: Seq<(Seq<char>, Seq<char>)>,
    output_dir: Seq<char>,
    i: int,
)
    requires
        0 <= i < site.len(),
    ensures
        written(files, site, output_dir).contains_key(join_path(output_dir, site[i].0)),
    decreases site.len(),
{
    if i < site.len() - 1 {
        lemma_written_has(files, site.drop_last(), output_dir, i);
        assert(site.drop_last()[i] == site[i]);
    }
}

/// Writing pages removes no file.
proof fn lemma_written_keeps(
    files: Map<Seq<char>, Seq<char>>,
    site: Seq<(Seq<char>, Seq<char>)>,
    output_dir: Seq<char>,
    key: Seq<char>,
)
    requires
        files.contains_key(key),
    ensures
        written(files, site, output_dir).contains_key(key),
    decreases site.len(),
{
    if site.len() > 0 {
        lemma_written_keeps(files, site.drop_last(), output_dir, key);
    }
}

/// Copying assets removes no file.
proof fn lemma_copied_keeps(
    files: Map<Seq<char>, Seq<char>>,
    assets: Seq<(Seq<char>, Seq<Seq<char>>)>,
    output_dir: Seq<char>,
    key: Seq<char>,
)
    requires
        files.contains_key(key),
    ensures
        copied(files, assets, output_dir).contains_key(key),
    decreases assets.len(),
{
    if assets.len() > 0 {
        lemma_copied_keeps(files, assets.drop_last(), output_dir, key);
    }
}

/// Law: a conversion leaves a page for every category that the analysis of
/// the source pages found, named after the category in the output
/// directory; as written (before any asset of that name is copied over
/// it), that page lists the pages carrying the category and those linking
/// to it.
pub proof fn law_conversion_has_category_pages(
    files: Map<Seq<char>, Seq<char>>,
    input_dir: Seq<char>,
    output_dir: Seq<char>,
    paths: Seq<Seq<char>>,
    k: Seq<char>,
)
    requires
        analysis_of(
            page_names(plan_of(paths, input_dir)),
            source_items(files, plan_of(paths, input_dir).0),
        ).categories.contains_key(k),
    ensures
        conversion(files, input_dir, output_dir, paths).0.contains_key(join_path(output_dir, k + html_ext())),
        ({
            let plan = plan_of(paths, input_dir);
            let st = analysis_of(page_names(plan), source_items(files, plan.0));
            let header = template(files, join_path(input_dir, "header.html"@), default_header());
            let footer = template(files, join_path(input_dir, "footer.html"@), default_footer());
            let site = site_output(header, footer, rendered_pages(page_names(plan), source_bodies(files, plan.0)), st.backlinks, st.categories);
            exists|i: int|
                0 <= i < site.len() && (#[trigger] site[i]).0 == k + html_ext() && exists|body: Seq<char>|
                    site[i].1 == #[trigger] page_html(
                        header,
                        body,
                        listing(st.categories, k),
                        listing(st.backlinks, k + html_ext()),
                        footer,
                    )
        }),
{
    let plan = plan_of(paths, input_dir);
    let st = analysis_of(page_names(plan), source_items(files, plan.0));
    let header = template(files, join_path(input_dir, "header.html"@), default_header());
    let footer = template(files, join_path(input_dir, "footer.html"@), default_footer());
    let pages = rendered_pages(page_names(plan), source_bodies(files, plan.0));
    let site = site_output(header, footer, pages, st.backlinks, st.categories);
    lemma_analysis_finite(page_names(plan), source_items(files, plan.0));
    law_every_category_has_a_page(header, footer, pages, st.backlinks, st.categories, k);
    let i = choose|i: int|
        0 <= i < site.len() && {
            let out = #[trigger] site[i];
            &&& out.0 == k + html_ext()
            &&& exists|body: Seq<char>|
                out.1 == #[trigger] page_html(header, body, listing(st.categories, k), listing(st.backlinks, k + html_ext()), footer)
        };
    lemma_written_has(files, site, output_dir, i);
    lemma_copied_keeps(written(files, site, output_dir), plan.1, output_dir, join_path(output_dir, k + html_ext()));
}

/// The text of a template file, or `default` when there is none.
fn read_template<FS: FileSystem>(fs: &FS, path: &str, default: String) -> (r: Result<String, WikiError>)
    ensures
        fs.models_files() ==> (r matches Ok(t) ==> t@ == template(fs.files(), path@, default@)),
        fs.models_files() ==> r is Ok,
{
    if fs.path_exists(path) {
        fs.read_to_string(path)
    } else {
        Ok(default)
    }
}

/// Converts the wiki under `input_dir` into a static site under
/// `output_dir`, leaving out what an ignore pattern matches: each markdown
/// file directly under `input_dir` becomes a page (see `assemble_site`),
/// each category without such a page gets a generated page, and every other
/// file except the templates is copied. Given `search_index_path`, it then
/// writes there the search data of the pages (see `search_data`). Returns
/// the search index of the pages. Fails with the first error of the file
/// system, or with `NotUnderInput` for a file the walk found outside
/// `input_dir`. On a file system that models its files it succeeds, and the
/// files are then those of the `conversion` of what the walk found, with
/// the search data where it was asked for.
pub fn convert_wiki<FS: FileSystem>(
    fs: &mut FS,
    input_dir: &str,
    output_dir: &str,
    search_index_path: Option<&str>,
    ignore_patterns: &[String],
) -> (r: Result<SearchIndex, WikiError>)
    ensures
        old(fs).models_files() ==> r is Ok,
        old(fs).models_files() ==> (r matches Ok(index) ==> exists|paths: Seq<Seq<char>>|
            walk_result(old(fs).files(), input_dir@, ignore_patterns@, paths) && {
                let (site, docs) = #[trigger] conversion(old(fs).files(), input_dir@, output_dir@, paths);
                &&& docs == index@
                &&& final(fs).files() == with_search_data(site, opt_str_view(search_index_path), docs)
            }),
{
    let ghost files = fs.files();
    let ghost models = fs.models_files();
    let header_path = join(input_dir, "header.html");
    let footer_path = join(input_dir, "footer.html");
    let header = match read_template(fs, header_path.as_str(), default_header_html()) {
        Ok(h) => h,
        Err(e) => return Err(e),
    };
    let footer = match read_template(fs, footer_path.as_str(), default_footer_html()) {
        Ok(f) => f,
        Err(e) => return Err(e),
    };
    let all_files = match fs.walk_dir(input_dir, ignore_patterns) {
        Ok(v) => v,
        Err(e) => return Err(e),
    };
    let ghost paths = str_views(all_files@);
    let plan = match plan_inputs(&all_files, input_dir) {
        Ok(p) => p,
        Err(e) => {
            proof {
                if models {
                    let i = choose|i: int| 0 <= i < all_files@.len() && lies_outside(#[trigger] all_files@[i]@, input_dir@);
                    assert(paths[i] == all_files@[i]@);
                    assert(paths.to_set().contains(paths[i]));
                }
            }
            return Err(e);
        },
    };
    let ghost pv = (pairs_view(plan.pages@), assets_view(plan.assets@));
    let ghost names = page_names(pv);
    proof {
        law_plan_sorts_inputs(paths, input_dir@);
        if models {
            assert forall|j: int| 0 <= j < pv.0.len() implies files.contains_key(#[trigger] pv.0[j].0) by {
                assert(paths.contains(pv.0[j].0));
                assert(paths.to_set().contains(pv.0[j].0));
            }
            assert forall|j: int| 0 <= j < pv.1.len() implies files.contains_key(#[trigger] pv.1[j].0) by {
                assert(paths.contains(pv.1[j].0));
                assert(paths.to_set().contains(pv.1[j].0));
            }
        }
    }
    match fs.create_dir_all(output_dir) {
        Ok(()) => {},
        Err(e) => return Err(e),
    }
    let mut analyzer = Analyzer::new();
    let mut rendered: Vec<(String, String)> = Vec::new();
    let mut i: usize = 0;
    while i < plan.pages.len()
        invariant
            0 <= i <= plan.pages@.len(),
            fs.models_files() == models,
            models == old(fs).models_files(),
            models ==> fs.files() == files,
            pv == (pairs_view(plan.pages@), assets_view(plan.assets@)),
            names == page_names(pv),
            names.len() == plan.pages@.len(),
            models ==> forall|j: int| 0 <= j < pv.0.len() ==> files.contains_key(#[trigger] pv.0[j].0),
            models ==> analyzer@ == analysis_of(names.take(i as int), source_items(files, pv.0.take(i as int))),
            models ==> pairs_view(rendered@) == rendered_pages(names.take(i as int), source_bodies(files, pv.0.take(i as int))),
        decreases plan.pages.len() - i,
    {
        assert(names[i as int] == plan.pages@[i as int].1@);
        assert(pv.0[i as int].0 == plan.pages@[i as int].0@);
        let content = match fs.read_to_string(plan.pages[i].0.as_str()) {
            Ok(c) => c,
            Err(e) => return Err(e),
        };
        let name = str_to_string(plan.pages[i].1.as_str());
        let ghost before = analyzer@;
        let body = render_page(&mut analyzer, name, content.as_str());
        let ghost old_rendered = pairs_view(rendered@);
        let page_name = str_to_string(plan.pages[i].1.as_str());
        let ghost body_view = body@;
        rendered.push((page_name, body));
        assert(pairs_view(rendered@) =~= old_rendered.push((names[i as int], body_view)));
        proof {
            let nt = names.take(i + 1);
            assert(nt.drop_last() =~= names.take(i as int));
            if models {
                let si = source_items(files, pv.0.take(i + 1));
                assert(si.drop_last() =~= source_items(files, pv.0.take(i as int)));
                assert(si.last() == markdown_items(content@));
                assert(analysis_of(nt, si) == analyzer@);
                let sb = source_bodies(files, pv.0.take(i + 1));
                assert(sb =~= source_bodies(files, pv.0.take(i as int)).push(body_view));
                assert(pairs_view(rendered@) =~= rendered_pages(nt, sb));
            }
        }
        i += 1;
    }
    assert(names.take(i as int) =~= names);
    let site = assemble_site(
        header.as_str(),
        footer.as_str(),
        &rendered,
        analyzer.get_backlinks(),
        analyzer.get_categories(),
    );
    let ghost sv = pairs_view(site@);
    let mut j: usize = 0;
    while j < site.len()
        invariant
            0 <= j <= site@.len(),
            sv == pairs_view(site@),
            fs.models_files() == models,
            models == old(fs).models_files(),
            models ==> fs.files() == written(files, sv.take(j as int), output_dir@),
        decreases site.len() - j,
    {
        assert(sv.take(j + 1).drop_last() =~= sv.take(j as int));
        assert(sv.take(j + 1).last() == (site@[j as int].0@, site@[j as int].1@));
        let out_path = join(output_dir, site[j].0.as_str());
        match fs.write(out_path.as_str(), site[j].1.as_str()) {
            Ok(()) => {},
            Err(e) => return Err(e),
        }
        j += 1;
    }
    assert(sv.take(j as int) =~= sv);
    let ghost after_pages = fs.files();
    let mut k: usize = 0;
    while k < plan.assets.len()
        invariant
            0 <= k <= plan.assets@.len(),
            pv == (pairs_view(plan.pages@), assets_view(plan.assets@)),
            fs.models_files() == models,
            models == old(fs).models_files(),
            models ==> fs.files() == copied(after_pages, pv.1.take(k as int), output_dir@),
            models ==> after_pages == written(files, sv, output_dir@),
            models ==> forall|j: int| 0 <= j < pv.1.len() ==> files.contains_key(#[trigger] pv.1[j].0),
        decreases plan.assets.len() - k,
    {
        proof {
            if models {
                let key = pv.1[k as int].0;
                lemma_written_keeps(files, sv, output_dir@, key);
                lemma_copied_keeps(after_pages, pv.1.take(k as int), output_dir@, key);
            }
        }
        assert(pv.1.take(k + 1).drop_last() =~= pv.1.take(k as int));
        assert(pv.1.take(k + 1).last() == (plan.assets@[k as int].0@, plan.assets@[k as int].1@.map_values(|c: Vec<char>| c@)));
        let (dir, dest) = asset_paths(output_dir, &plan.assets[k].1);
        match fs.create_dir_all(dir.as_str()) {
            Ok(()) => {},
            Err(e) => return Err(e),
        }
        match fs.copy(plan.assets[k].0.as_str(), dest.as_str()) {
            Ok(()) => {},
            Err(e) => return Err(e),
        }
        k += 1;
    }
    assert(pv.1.take(k as int) =~= pv.1);
    let index = analyzer.finalize();
    proof {
        assert(".html"@ == html_ext()) by {
            reveal_strlit(".html");
        }
        if models {
            assert(pv.0.take(plan.pages@.len() as int) =~= pv.0);
            assert(conversion(files, input_dir@, output_dir@, paths) == (fs.files(), index@));
        }
    }
    if let Some(p) = search_index_path {
        let json = search_index_json(&index);
        let script = search_data_script(json.as_str());
        match fs.write(p, script.as_str()) {
            Ok(()) => {},
            Err(e) => return Err(e),
        }
    }
    Ok(index)
}

} // verus!
