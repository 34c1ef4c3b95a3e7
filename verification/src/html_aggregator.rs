//! Heading anchors for the pulldown-cmark event stream: heading text is
//! turned into a URL-friendly slug, and an aggregator that has seen the
//! whole stream gives each heading without an explicit id its slug.
use vstd::prelude::*;
use pulldown_cmark::{CowStr, Event, Tag, TagEnd};
use crate::text::{
    is_alphanumeric_char, is_whitespace_char, lowercase, char_is_alphanumeric, char_is_whitespace,
    to_lowercase, str_chars, string_from_chars, split_at_char, non_empty, join_with, split_chars,
    join_non_empty, str_to_string,
};

verus! {

// ---------------------------------------------------------------------
// Slugs.
// ---------------------------------------------------------------------

/// What a character becomes in a slug: alphanumerics stay, whitespace and
/// `-` become `-`, everything else is dropped.
pub open spec fn slug_char(c: char) -> Option<char> {
    if is_alphanumeric_char(c) {
        Some(c)
    } else if is_whitespace_char(c) || c == '-' {
        Some('-')
    } else {
        None
    }
}

/// The characters of `s` mapped by `slug_char`, dropped ones left out.
pub open spec fn slug_chars(s: Seq<char>) -> Seq<char>
    decreases s.len(),
{
    if s.len() == 0 {
        seq![]
    } else {
        match slug_char(s.last()) {
            Some(c) => slug_chars(s.drop_last()).push(c),
            None => slug_chars(s.drop_last()),
        }
    }
}

/// The slug of a heading text: lower-cased, mapped by `slug_char`, split at
/// `-`, empty pieces dropped, and joined with `-`.
pub open spec fn slug(text: Seq<char>) -> Seq<char> {
    join_with(non_empty(split_at_char(slug_chars(lowercase(text)), '-')), '-')
}

/// The slug characters of `s`.
fn map_slug_chars(s: &Vec<char>) -> (r: Vec<char>)
    ensures
        r@ == slug_chars(s@),
{
    let mut r: Vec<char> = Vec::new();
    let mut i: usize = 0;
    while i < s.len()
        invariant
            0 <= i <= s.len(),
            r@ == slug_chars(s@.take(i as int)),
        decreases s.len() - i,
    {
        let c = s[i];
        assert(s@.take(i + 1).drop_last() == s@.take(i as int));
        if char_is_alphanumeric(c) {
            r.push(c);
        } else if char_is_whitespace(c) || c == '-' {
            r.push('-');
        }
        i += 1;
    }
    assert(s@.take(i as int) == s@);
    r
}

/// Converts text to a URL-friendly slug for heading ids.
pub fn slugify(text: &str) -> (r: String)
    ensures
        r@ == slug(text@),
{
    let lower = to_lowercase(text);
    let chars = str_chars(lower.as_str());
    let mapped = map_slug_chars(&chars);
    let pieces = split_chars(&mapped, '-');
    let joined = join_non_empty(&pieces, '-');
    string_from_chars(joined.as_slice())
}

// ---------------------------------------------------------------------
// Laws of slugs.
// ---------------------------------------------------------------------

/// Every character of `slug_chars(s)` is alphanumeric or `-`.
proof fn lemma_slug_chars_alphabet(s: Seq<char>)
    ensures
        forall|i: int| 0 <= i < slug_chars(s).len() ==> {
            let c = #[trigger] slug_chars(s)[i];
            c == '-' || is_alphanumeric_char(c)
        },
    decreases s.len(),
{
    if s.len() > 0 {
        lemma_slug_chars_alphabet(s.drop_last());
        let prev = slug_chars(s.drop_last());
        assert forall|i: int| 0 <= i < slug_chars(s).len() implies {
            let c = #[trigger] slug_chars(s)[i];
            c == '-' || is_alphanumeric_char(c)
        } by {
            if i < prev.len() {
                assert(slug_chars(s)[i] == prev[i]);
            }
        }
    }
}

/// The pieces of a split hold no separator and together hold every other
/// character.
proof fn lemma_split_pieces(s: Seq<char>, sep: char)
    ensures
        split_at_char(s, sep).len() >= 1,
        forall|k: int, j: int| 0 <= k < split_at_char(s, sep).len() && 0 <= j < split_at_char(s, sep)[k].len()
            ==> #[trigger] split_at_char(s, sep)[k][j] != sep && s.contains(split_at_char(s, sep)[k][j]),
    decreases s.len(),
{
    if s.len() > 0 {
        lemma_split_pieces(s.drop_last(), sep);
        let p = split_at_char(s.drop_last(), sep);
        assert forall|k: int, j: int| 0 <= k < split_at_char(s, sep).len() && 0 <= j < split_at_char(s, sep)[k].len()
            implies #[trigger] split_at_char(s, sep)[k][j] != sep && s.contains(split_at_char(s, sep)[k][j]) by {
            let q = split_at_char(s, sep);
            if s.last() == sep {
                if k < p.len() {
                    assert(q[k] == p[k]);
                    assert(s.drop_last().contains(p[k][j]));
                    let t = choose|t: int| 0 <= t < s.drop_last().len() && s.drop_last()[t] == p[k][j];
                    assert(s[t] == p[k][j]);
                }
            } else {
                if k < p.len() - 1 {
                    assert(q[k] == p[k]);
                    let t = choose|t: int| 0 <= t < s.drop_last().len() && s.drop_last()[t] == p[k][j];
                    assert(s[t] == p[k][j]);
                } else {
                    assert(q[k] == p.last().push(s.last()));
                    if j < p.last().len() {
                        assert(q[k][j] == p[p.len() - 1][j]);
                        let t = choose|t: int| 0 <= t < s.drop_last().len() && s.drop_last()[t] == p[k][j];
                        assert(s[t] == p[k][j]);
                    } else {
                        assert(s[s.len() - 1] == q[k][j]);
                    }
                }
            }
        }
    }
}

/// Joining non-empty pieces free of `sep` gives a text that neither starts
/// nor ends with `sep`, holds no two `sep` in a row, and whose other
/// characters all come from the pieces.
proof fn lemma_join_shape(ws: Seq<Seq<char>>, sep: char)
    requires
        forall|k: int| 0 <= k < ws.len() ==> #[trigger] ws[k].len() > 0,
        forall|k: int, j: int| 0 <= k < ws.len() && 0 <= j < ws[k].len() ==> #[trigger] ws[k][j] != sep,
    ensures
        ({
            let r = join_with(ws, sep);
            &&& ws.len() > 0 ==> r.len() > 0 && r[0] != sep && r[r.len() - 1] != sep
            &&& forall|i: int| 0 <= i < r.len() - 1 && #[trigger] r[i] == sep ==> r[i + 1] != sep
            &&& forall|i: int| 0 <= i < r.len() && r[i] != sep ==> exists|k: int, j: int|
                0 <= k < ws.len() && 0 <= j < ws[k].len() && #[trigger] ws[k][j] == r[i]
        }),
    decreases ws.len(),
{
    if ws.len() == 1 {
        let r = join_with(ws, sep);
        assert(r == ws[0]);
        assert forall|i: int| 0 <= i < r.len() && r[i] != sep implies exists|k: int, j: int|
            0 <= k < ws.len() && 0 <= j < ws[k].len() && #[trigger] ws[k][j] == r[i] by {
            assert(ws[0][i] == r[i]);
        }
    } else if ws.len() > 1 {
        let init = ws.drop_last();
        lemma_join_shape(init, sep);
        let a = join_with(init, sep);
        let w = ws.last();
        let r = join_with(ws, sep);
        assert(r == a.push(sep) + w);
        assert(w.len() > 0 && w[0] != sep);
        assert(ws[ws.len() - 1][w.len() - 1] != sep);
        assert forall|i: int| 0 <= i < r.len() - 1 && #[trigger] r[i] == sep implies r[i + 1] != sep by {
            if i < a.len() - 1 {
                assert(r[i] == a[i] && r[i + 1] == a[i + 1]);
            } else if i == a.len() - 1 {
                assert(r[i] == a[i]);
            } else if i == a.len() {
                assert(r[i + 1] == w[0]);
            } else {
                assert(r[i] == w[i - a.len() - 1]);
                assert(ws[ws.len() - 1][i - a.len() - 1] != sep);
            }
        }
        assert forall|i: int| 0 <= i < r.len() && r[i] != sep implies exists|k: int, j: int|
            0 <= k < ws.len() && 0 <= j < ws[k].len() && #[trigger] ws[k][j] == r[i] by {
            if i < a.len() {
                assert(r[i] == a[i]);
                let (k, j) = choose|k: int, j: int| 0 <= k < init.len() && 0 <= j < init[k].len() && #[trigger] init[k][j] == a[i];
                assert(ws[k][j] == init[k][j]);
            } else if i > a.len() {
                assert(ws[ws.len() - 1][i - a.len() - 1] == r[i]);
            }
        }
    }
}

/// The non-empty pieces are non-empty, and each is one of the pieces.
proof fn lemma_non_empty(ws: Seq<Seq<char>>)
    ensures
        forall|k: int| 0 <= k < non_empty(ws).len() ==> #[trigger] non_empty(ws)[k].len() > 0
            && ws.contains(non_empty(ws)[k]),
    decreases ws.len(),
{
    reveal(Seq::filter);
    if ws.len() > 0 {
        lemma_non_empty(ws.drop_last());
        assert forall|k: int| 0 <= k < non_empty(ws).len() implies #[trigger] non_empty(ws)[k].len() > 0
            && ws.contains(non_empty(ws)[k]) by {
            let prev = non_empty(ws.drop_last());
            if k < prev.len() {
                assert(non_empty(ws)[k] == prev[k]);
                let t = choose|t: int| 0 <= t < ws.drop_last().len() && ws.drop_last()[t] == prev[k];
                assert(ws[t] == prev[k]);
            } else {
                assert(non_empty(ws)[k] == ws.last());
                assert(ws[ws.len() - 1] == ws.last());
            }
        }
    }
}

/// Law: a slug neither starts nor ends with `-`, never holds two `-` in a
/// row, and every other character of it is alphanumeric.
pub proof fn law_slug_shape(text: Seq<char>)
    ensures
        ({
            let r = slug(text);
            &&& r.len() > 0 ==> r[0] != '-' && r[r.len() - 1] != '-'
            &&& forall|i: int| 0 <= i < r.len() - 1 && #[trigger] r[i] == '-' ==> r[i + 1] != '-'
            &&& forall|i: int| 0 <= i < r.len() ==> r[i] == '-' || is_alphanumeric_char(r[i])
        }),
{
    let m = slug_chars(lowercase(text));
    let pieces = split_at_char(m, '-');
    let ws = non_empty(pieces);
    lemma_slug_chars_alphabet(lowercase(text));
    lemma_split_pieces(m, '-');
    lemma_non_empty(pieces);
    assert forall|k: int, j: int| 0 <= k < ws.len() && 0 <= j < ws[k].len() implies #[trigger] ws[k][j] != '-'
        && is_alphanumeric_char(ws[k][j]) by {
        let t = choose|t: int| 0 <= t < pieces.len() && pieces[t] == ws[k];
        assert(pieces[t][j] == ws[k][j]);
        let u = choose|u: int| 0 <= u < m.len() && m[u] == pieces[t][j];
        assert(m[u] == '-' || is_alphanumeric_char(m[u]));
    }
    lemma_join_shape(ws, '-');
    let r = join_with(ws, '-');
    if ws.len() == 0 {
        assert(r.len() == 0);
    }
    assert forall|i: int| 0 <= i < r.len() implies r[i] == '-' || is_alphanumeric_char(r[i]) by {
        if r[i] != '-' {
            let (k, j) = choose|k: int, j: int| 0 <= k < ws.len() && 0 <= j < ws[k].len() && #[trigger] ws[k][j] == r[i];
            assert(is_alphanumeric_char(ws[k][j]));
        }
    }
}

/// The slug characters of a concatenation are those of its parts.
proof fn lemma_slug_chars_concat(x: Seq<char>, y: Seq<char>)
    ensures
        slug_chars(x + y) == slug_chars(x) + slug_chars(y),
    decreases y.len(),
{
    if y.len() == 0 {
        assert(x + y =~= x);
        assert(slug_chars(x) + slug_chars(y) =~= slug_chars(x));
    } else {
        lemma_slug_chars_concat(x, y.drop_last());
        assert((x + y).drop_last() =~= x + y.drop_last());
        assert((x + y).last() == y.last());
        match slug_char(y.last()) {
            Some(c) => {
                assert(slug_chars(x + y) == slug_chars(x + y.drop_last()).push(c));
                assert(slug_chars(x) + slug_chars(y) =~= (slug_chars(x) + slug_chars(y.drop_last())).push(c));
            },
            None => {},
        }
    }
}

/// Law: a character that is neither alphanumeric, whitespace nor `-`
/// (punctuation such as `'` or `!`) adds nothing to a slug: texts whose
/// lower-case forms differ only by it have the same slug.
pub proof fn law_slug_drops_other_chars(t1: Seq<char>, t2: Seq<char>, a: Seq<char>, c: char, b: Seq<char>)
    requires
        lowercase(t1) == a + seq![c] + b,
        lowercase(t2) == a + b,
        !is_alphanumeric_char(c),
        !is_whitespace_char(c),
        c != '-',
    ensures
        slug(t1) == slug(t2),
{
    lemma_slug_chars_concat(a + seq![c], b);
    lemma_slug_chars_concat(a, seq![c]);
    lemma_slug_chars_concat(a, b);
    assert(seq![c].drop_last() =~= Seq::<char>::empty());
    assert(seq![c].last() == c);
    assert(slug_char(c) is None);
    assert(slug_chars(seq![c]) == slug_chars(Seq::<char>::empty()));
    assert(slug_chars(seq![c]) =~= Seq::<char>::empty());
    assert(slug_chars(a) + slug_chars(seq![c]) =~= slug_chars(a));
}

/// Law: whitespace and `-` separate alike: texts whose lower-case forms
/// differ only by a (non-alphanumeric) whitespace character where the other
/// has `-` have the same slug.
pub proof fn law_slug_whitespace_is_dash(t1: Seq<char>, t2: Seq<char>, a: Seq<char>, w: char, b: Seq<char>)
    requires
        lowercase(t1) == a + seq![w] + b,
        lowercase(t2) == a + seq!['-'] + b,
        is_whitespace_char(w),
        !is_alphanumeric_char(w),
    ensures
        slug(t1) == slug(t2),
{
    lemma_slug_chars_concat(a + seq![w], b);
    lemma_slug_chars_concat(a, seq![w]);
    lemma_slug_chars_concat(a + seq!['-'], b);
    lemma_slug_chars_concat(a, seq!['-']);
    assert(seq![w].drop_last() =~= Seq::<char>::empty());
    assert(seq!['-'].drop_last() =~= Seq::<char>::empty());
    assert(!is_alphanumeric_char('-')) by {
        assert(('-' as u32) == 0x2d);
    }
    assert(seq![w].last() == w);
    assert(seq!['-'].last() == '-');
    assert(slug_chars(seq![w]) == slug_chars(Seq::<char>::empty()).push('-'));
    assert(slug_chars(seq!['-']) == slug_chars(Seq::<char>::empty()).push('-'));
    assert(slug_chars(seq![w]) =~= seq!['-']);
    assert(slug_chars(seq!['-']) =~= seq!['-']);
}

/// The alphanumeric characters of `x`, in order.
pub open spec fn alnum_chars(x: Seq<char>) -> Seq<char>
    decreases x.len(),
{
    if x.len() == 0 {
        Seq::<char>::empty()
    } else if is_alphanumeric_char(x.last()) {
        alnum_chars(x.drop_last()).push(x.last())
    } else {
        alnum_chars(x.drop_last())
    }
}

/// The pieces one after the other.
pub open spec fn concat_all(ws: Seq<Seq<char>>) -> Seq<char>
    decreases ws.len(),
{
    if ws.len() == 0 {
        Seq::<char>::empty()
    } else {
        concat_all(ws.drop_last()) + ws.last()
    }
}

proof fn lemma_alnum_concat(x: Seq<char>, y: Seq<char>)
    ensures
        alnum_chars(x + y) == alnum_chars(x) + alnum_chars(y),
    decreases y.len(),
{
    if y.len() == 0 {
        assert(x + y =~= x);
        assert(alnum_chars(x) + alnum_chars(y) =~= alnum_chars(x));
    } else {
        lemma_alnum_concat(x, y.drop_last());
        assert((x + y).drop_last() =~= x + y.drop_last());
        assert((x + y).last() == y.last());
        if is_alphanumeric_char(y.last()) {
            assert(alnum_chars(x) + alnum_chars(y) =~= (alnum_chars(x) + alnum_chars(y.drop_last())).push(y.last()));
        }
    }
}

proof fn lemma_dash_not_alnum()
    ensures
        !is_alphanumeric_char('-'),
{
    assert(('-' as u32) == 0x2d);
}

proof fn lemma_alnum_slug_chars(l: Seq<char>)
    ensures
        alnum_chars(slug_chars(l)) == alnum_chars(l),
    decreases l.len(),
{
    lemma_dash_not_alnum();
    if l.len() > 0 {
        lemma_alnum_slug_chars(l.drop_last());
        let prev = slug_chars(l.drop_last());
        match slug_char(l.last()) {
            Some(c) => {
                assert(slug_chars(l) == prev.push(c));
                assert(prev.push(c).drop_last() =~= prev);
                assert(prev.push(c).last() == c);
            },
            None => {},
        }
    }
}

proof fn lemma_alnum_join(ws: Seq<Seq<char>>)
    ensures
        alnum_chars(join_with(ws, '-')) == alnum_chars(concat_all(ws)),
    decreases ws.len(),
{
    lemma_dash_not_alnum();
    if ws.len() == 1 {
        assert(concat_all(ws) == concat_all(ws.drop_last()) + ws.last());
        assert(concat_all(ws.drop_last()) =~= Seq::<char>::empty());
        assert(concat_all(ws) =~= ws[0]);
    } else if ws.len() > 1 {
        lemma_alnum_join(ws.drop_last());
        let j = join_with(ws.drop_last(), '-');
        lemma_alnum_concat(j.push('-'), ws.last());
        lemma_alnum_concat(j, seq!['-']);
        assert(j.push('-') =~= j + seq!['-']);
        assert(seq!['-'].drop_last() =~= Seq::<char>::empty());
        assert(seq!['-'].last() == '-');
        assert(alnum_chars(seq!['-']) == alnum_chars(Seq::<char>::empty()));
        assert(alnum_chars(seq!['-']) =~= Seq::<char>::empty());
        lemma_alnum_concat(concat_all(ws.drop_last()), ws.last());
        assert(alnum_chars(j) + Seq::<char>::empty() =~= alnum_chars(j));
    }
}

proof fn lemma_alnum_non_empty(ws: Seq<Seq<char>>)
    ensures
        alnum_chars(concat_all(non_empty(ws))) == alnum_chars(concat_all(ws)),
    decreases ws.len(),
{
    reveal(Seq::filter);
    if ws.len() > 0 {
        lemma_alnum_non_empty(ws.drop_last());
        let prev = non_empty(ws.drop_last());
        if ws.last().len() > 0 {
            assert(non_empty(ws) == prev.push(ws.last()));
            assert(prev.push(ws.last()).drop_last() =~= prev);
            lemma_alnum_concat(concat_all(prev), ws.last());
            lemma_alnum_concat(concat_all(ws.drop_last()), ws.last());
        } else {
            assert(non_empty(ws) == prev);
            assert(concat_all(ws) =~= concat_all(ws.drop_last()));
        }
    }
}

proof fn lemma_alnum_split(x: Seq<char>)
    ensures
        split_at_char(x, '-').len() >= 1,
        alnum_chars(concat_all(split_at_char(x, '-'))) == alnum_chars(x),
    decreases x.len(),
{
    lemma_dash_not_alnum();
    if x.len() == 0 {
        let ws = split_at_char(x, '-');
        assert(ws == seq![Seq::<char>::empty()]);
        assert(ws.drop_last() =~= Seq::<Seq<char>>::empty());
        assert(ws.last() == Seq::<char>::empty());
        assert(concat_all(ws) == concat_all(ws.drop_last()) + ws.last());
        assert(concat_all(ws) =~= Seq::<char>::empty());
    } else {
        lemma_alnum_split(x.drop_last());
        let p = split_at_char(x.drop_last(), '-');
        let c = x.last();
        if c == '-' {
            let q = p.push(Seq::<char>::empty());
            assert(q.drop_last() =~= p);
            assert(concat_all(q) =~= concat_all(p));
        } else {
            let q = p.update(p.len() - 1, p.last().push(c));
            assert(q.drop_last() =~= p.drop_last());
            assert(q.last() == p.last().push(c));
            assert(concat_all(q) =~= (concat_all(p.drop_last()) + p.last()).push(c));
            assert(concat_all(p) == concat_all(p.drop_last()) + p.last());
            let cp = concat_all(p);
            assert(cp.push(c).drop_last() =~= cp);
            assert(cp.push(c).last() == c);
        }
    }
}

/// Law: a slug keeps every alphanumeric character of the lower-case text,
/// in order, and adds none: only `-` separators come in between.
pub proof fn law_slug_keeps_alphanumerics(text: Seq<char>)
    ensures
        alnum_chars(slug(text)) == alnum_chars(lowercase(text)),
{
    let l = lowercase(text);
    let m = slug_chars(l);
    lemma_alnum_join(non_empty(split_at_char(m, '-')));
    lemma_alnum_non_empty(split_at_char(m, '-'));
    lemma_alnum_split(m);
    lemma_alnum_slug_chars(l);
}

// ---------------------------------------------------------------------
// The aggregator.
// ---------------------------------------------------------------------

#[verifier::external_type_specification]
#[verifier::external_body]
pub struct ExEvent<'a>(Event<'a>);

/// What the aggregator reads of an event: the start of a heading and
/// whether it has an explicit id, the end of a heading, a text, or any
/// other event.
pub enum EventKind {
    HeadingStart(bool),
    HeadingEnd,
    Text(String),
    Other,
}

/// An `EventKind` with the text of a `Text` as characters.
pub enum KindView {
    HeadingStart(bool),
    HeadingEnd,
    Text(Seq<char>),
    Other,
}

impl View for EventKind {
    type V = KindView;

    open spec fn view(&self) -> KindView {
        match self {
            EventKind::HeadingStart(has_id) => KindView::HeadingStart(*has_id),
            EventKind::HeadingEnd => KindView::HeadingEnd,
            EventKind::Text(t) => KindView::Text(t@),
            EventKind::Other => KindView::Other,
        }
    }
}

/// The kind of a pulldown-cmark event as `event_kind` reads it: a heading
/// start with or without an explicit id, a heading end, a text, or another
/// event.
pub uninterp spec fn event_kind_of(event: Event<'static>) -> KindView;

/// The heading start event `event` with its id set to `id`, its level,
/// classes and attributes kept.
pub uninterp spec fn heading_with_id(event: Event<'static>, id: Seq<char>) -> Event<'static>;

/// What `pulldown_cmark::html::push_html` writes into an empty string for
/// the events `events`.
pub uninterp spec fn pushed_html(events: Seq<Event<'static>>) -> Seq<char>;

/// The kind of a pulldown-cmark event, with the text of a `Text` event:
/// one arm for each variant that it tells apart; its result is named by
/// `event_kind_of`.
#[verifier::external_body]
fn event_kind(event: &Event<'static>) -> (k: EventKind)
    ensures
        k@ == event_kind_of(*event),
{
    match event {
        Event::Start(Tag::Heading { id: Some(_), .. }) => EventKind::HeadingStart(true),
        Event::Start(Tag::Heading { id: None, .. }) => EventKind::HeadingStart(false),
        Event::End(TagEnd::Heading(_)) => EventKind::HeadingEnd,
        Event::Text(text) => EventKind::Text(text.to_string()),
        _ => EventKind::Other,
    }
}

/// A heading start event rebuilt by `Tag::Heading` with its id set to `id`,
/// its level, classes and attributes cloned; its result is named by
/// `heading_with_id`. Any other event is cloned as it is.
#[verifier::external_body]
fn with_heading_id(event: &Event<'static>, id: String) -> (r: Event<'static>)
    ensures
        r == heading_with_id(*event, id@),
{
    match event {
        Event::Start(Tag::Heading { level, classes, attrs, .. }) => Event::Start(Tag::Heading {
            level: *level,
            id: Some(CowStr::from(id)),
            classes: classes.clone(),
            attrs: attrs.clone(),
        }),
        other => other.clone(),
    }
}

/// `pulldown_cmark::html::push_html` into an empty string: the HTML of the
/// events, named by `pushed_html`.
#[verifier::external_body]
fn events_html(events: Vec<Event<'static>>) -> (r: String)
    ensures
        r@ == pushed_html(events@),
{
    let mut out = String::new();
    pulldown_cmark::html::push_html(&mut out, events.into_iter());
    out
}

/// The kinds of the events, by position.
pub open spec fn kinds_of(events: Seq<Event<'static>>) -> Seq<KindView> {
    events.map_values(|e: Event<'static>| event_kind_of(e))
}

/// The text of the `Text` events from position `j` up to the first heading
/// end, concatenated.
pub open spec fn heading_text_from(kinds: Seq<KindView>, j: int) -> Seq<char>
    decreases kinds.len() - j,
{
    if j < 0 || j >= kinds.len() {
        Seq::<char>::empty()
    } else {
        match kinds[j] {
            KindView::HeadingEnd => Seq::<char>::empty(),
            KindView::Text(t) => t + heading_text_from(kinds, j + 1),
            _ => heading_text_from(kinds, j + 1),
        }
    }
}

/// The id given to the event at position `i`: a heading start without an
/// explicit id gets the slug of its text, when that text is not empty;
/// every other event keeps what it has.
pub open spec fn heading_id_at(kinds: Seq<KindView>, i: int) -> Option<Seq<char>> {
    match kinds[i] {
        KindView::HeadingStart(has_id) => if !has_id && heading_text_from(kinds, i + 1).len() > 0 {
            Some(slug(heading_text_from(kinds, i + 1)))
        } else {
            None
        },
        _ => None,
    }
}

/// The text from `j` is the same once everything after the heading end at
/// `e` is cut off.
proof fn lemma_heading_text_to_end(kinds: Seq<KindView>, j: int, e: int)
    requires
        0 <= j <= e < kinds.len(),
        kinds[e] is HeadingEnd,
        forall|m: int| j <= m < e ==> !(#[trigger] kinds[m] is HeadingEnd),
    ensures
        heading_text_from(kinds, j) == heading_text_from(kinds.take(e + 1), j),
    decreases e - j,
{
    let t = kinds.take(e + 1);
    assert(t[j] == kinds[j]);
    if j < e {
        lemma_heading_text_to_end(kinds, j + 1, e);
    }
}

/// Past a removed `Other` event, the text reads on one position later.
proof fn lemma_heading_text_after_removed(kinds: Seq<KindView>, r: int, m: int)
    requires
        0 <= r <= m,
        r < kinds.len(),
    ensures
        heading_text_from(kinds.remove(r), m) == heading_text_from(kinds, m + 1),
    decreases kinds.len() - m,
{
    let k2 = kinds.remove(r);
    if m < k2.len() {
        assert(k2[m] == kinds[m + 1]);
        lemma_heading_text_after_removed(kinds, r, m + 1);
    }
}

/// Before a removed `Other` event, the text is the same.
proof fn lemma_heading_text_removed_other(kinds: Seq<KindView>, r: int, m: int)
    requires
        0 <= m <= r < kinds.len(),
        kinds[r] is Other,
    ensures
        heading_text_from(kinds.remove(r), m) == heading_text_from(kinds, m),
    decreases r - m,
{
    let k2 = kinds.remove(r);
    if m < r {
        assert(k2[m] == kinds[m]);
        lemma_heading_text_removed_other(kinds, r, m + 1);
    } else {
        lemma_heading_text_after_removed(kinds, r, m);
    }
}

/// Law: a heading start with an explicit id, and any event that is no
/// heading start, gets no id from the aggregator.
pub proof fn law_only_headings_without_id_get_one(kinds: Seq<KindView>, i: int)
    requires
        0 <= i < kinds.len(),
        !(kinds[i] == KindView::HeadingStart(false)),
    ensures
        heading_id_at(kinds, i) is None,
{
}

/// Law: the id of a heading depends only on the events up to its end:
/// whatever follows the heading end leaves it as it is.
pub proof fn law_heading_id_ends_at_heading_end(kinds: Seq<KindView>, i: int, e: int)
    requires
        0 <= i < e < kinds.len(),
        kinds[e] is HeadingEnd,
        forall|m: int| i < m < e ==> !(#[trigger] kinds[m] is HeadingEnd),
    ensures
        heading_id_at(kinds, i) == heading_id_at(kinds.take(e + 1), i),
{
    lemma_heading_text_to_end(kinds, i + 1, e);
    assert(kinds.take(e + 1)[i] == kinds[i]);
}

/// Law: events other than texts and heading ends (emphasis, code, ...) do
/// not change the id of a heading that starts before them.
pub proof fn law_heading_id_ignores_other_events(kinds: Seq<KindView>, i: int, r: int)
    requires
        0 <= i < r < kinds.len(),
        kinds[r] is Other,
    ensures
        heading_id_at(kinds, i) == heading_id_at(kinds.remove(r), i),
{
    lemma_heading_text_removed_other(kinds, r, i + 1);
    assert(kinds.remove(r)[i] == kinds[i]);
}

/// Putting a piece in front puts its characters in front.
proof fn lemma_concat_all_front(w: Seq<char>, rest: Seq<Seq<char>>)
    ensures
        concat_all(seq![w] + rest) == w + concat_all(rest),
    decreases rest.len(),
{
    if rest.len() == 0 {
        assert(seq![w] + rest =~= seq![w]);
        assert(seq![w].drop_last() =~= Seq::<Seq<char>>::empty());
        assert(concat_all(seq![w]) == concat_all(Seq::<Seq<char>>::empty()) + w);
        assert(w + concat_all(rest) =~= w);
        assert(concat_all(Seq::<Seq<char>>::empty()) + w =~= w);
    } else {
        lemma_concat_all_front(w, rest.drop_last());
        assert((seq![w] + rest).drop_last() =~= seq![w] + rest.drop_last());
        assert((seq![w] + rest).last() == rest.last());
        assert(w + concat_all(rest) =~= (w + concat_all(rest.drop_last())) + rest.last());
    }
}

/// The text from a run of text events up to a heading end is theirs, one
/// after the other.
proof fn lemma_heading_text_of_texts(kinds: Seq<KindView>, i: int, texts: Seq<Seq<char>>, m: int)
    requires
        0 <= i,
        0 <= m <= texts.len(),
        i + texts.len() + 1 < kinds.len(),
        forall|k: int| 0 <= k < texts.len() ==> #[trigger] kinds[i + 1 + k] == KindView::Text(texts[k]),
        kinds[i + 1 + texts.len()] is HeadingEnd,
    ensures
        heading_text_from(kinds, i + 1 + m) == concat_all(texts.subrange(m, texts.len() as int)),
    decreases texts.len() - m,
{
    if m == texts.len() {
        assert(texts.subrange(m, texts.len() as int) =~= Seq::<Seq<char>>::empty());
    } else {
        lemma_heading_text_of_texts(kinds, i, texts, m + 1);
        assert(kinds[i + 1 + m] == KindView::Text(texts[m]));
        assert(texts.subrange(m, texts.len() as int) =~= seq![texts[m]] + texts.subrange(m + 1, texts.len() as int));
        lemma_concat_all_front(texts[m], texts.subrange(m + 1, texts.len() as int));
    }
}

/// Law: a heading start without an explicit id, followed by text events
/// and then its end, gets the slug of those texts put together, when they
/// are not all empty.
pub proof fn law_heading_id_is_slug_of_its_texts(kinds: Seq<KindView>, i: int, texts: Seq<Seq<char>>)
    requires
        0 <= i,
        i + texts.len() + 1 < kinds.len(),
        kinds[i] == KindView::HeadingStart(false),
        forall|k: int| 0 <= k < texts.len() ==> #[trigger] kinds[i + 1 + k] == KindView::Text(texts[k]),
        kinds[i + 1 + texts.len()] is HeadingEnd,
        concat_all(texts).len() > 0,
    ensures
        heading_id_at(kinds, i) == Some(slug(concat_all(texts))),
{
    lemma_heading_text_of_texts(kinds, i, texts, 0);
    assert(texts.subrange(0, texts.len() as int) =~= texts);
}

/// The events with the ids of `heading_id_at` filled in.
pub open spec fn with_heading_ids(events: Seq<Event<'static>>) -> Seq<Event<'static>> {
    Seq::new(
        events.len(),
        |i: int|
            match heading_id_at(kinds_of(events), i) {
                Some(id) => heading_with_id(events[i], id),
                None => events[i],
            },
    )
}

/// The characters of an optional string.
pub open spec fn opt_view(o: Option<String>) -> Option<Seq<char>> {
    match o {
        Some(s) => Some(s@),
        None => None,
    }
}

/// The views of the kinds.
pub open spec fn kind_views(kinds: Seq<EventKind>) -> Seq<KindView> {
    kinds.map_values(|k: EventKind| k@)
}

/// The text of the heading whose start is just before position `from`.
fn heading_text(kinds: &Vec<EventKind>, from: usize) -> (r: String)
    requires
        from <= kinds.len(),
    ensures
        r@ == heading_text_from(kind_views(kinds@), from as int),
{
    let ghost kv = kind_views(kinds@);
    let mut text = String::new();
    let mut j = from;
    while j < kinds.len()
        invariant
            from <= j <= kinds.len(),
            kv == kind_views(kinds@),
            text@ + heading_text_from(kv, j as int) == heading_text_from(kv, from as int),
        decreases kinds.len() - j,
    {
        assert(kv[j as int] == kinds@[j as int]@);
        match &kinds[j] {
            EventKind::HeadingEnd => {
                assert(text@ =~= text@ + heading_text_from(kv, j as int));
                return text;
            },
            EventKind::Text(t) => {
                let ghost before = text@;
                text.append(t.as_str());
                assert(text@ + heading_text_from(kv, j + 1) =~= before + heading_text_from(kv, j as int));
            },
            _ => {},
        }
        j += 1;
    }
    assert(text@ =~= text@ + heading_text_from(kv, j as int));
    text
}

/// The id each event gets, by position (see `heading_id_at`).
pub fn heading_ids(kinds: &Vec<EventKind>) -> (r: Vec<Option<String>>)
    ensures
        r@.len() == kinds@.len(),
        forall|i: int| 0 <= i < kinds@.len() ==> opt_view(#[trigger] r@[i]) == heading_id_at(kind_views(kinds@), i),
{
    let ghost kv = kind_views(kinds@);
    let mut ids: Vec<Option<String>> = Vec::new();
    let mut i: usize = 0;
    while i < kinds.len()
        invariant
            0 <= i <= kinds.len(),
            kv == kind_views(kinds@),
            ids@.len() == i,
            forall|k: int| 0 <= k < i ==> opt_view(#[trigger] ids@[k]) == heading_id_at(kv, k),
        decreases kinds.len() - i,
    {
        assert(kv[i as int] == kinds@[i as int]@);
        let id = match &kinds[i] {
            EventKind::HeadingStart(has_id) => {
                if !*has_id {
                    let text = heading_text(kinds, i + 1);
                    if text.as_str().is_empty() {
                        None
                    } else {
                        Some(slugify(text.as_str()))
                    }
                } else {
                    None
                }
            },
            _ => None,
        };
        ids.push(id);
        i += 1;
    }
    ids
}

/// HTML aggregator that collects the whole event stream, so that each
/// heading can get an id made from its text, which follows its start.
pub struct HtmlAggregator {
    events: Vec<Event<'static>>,
    kinds: Vec<EventKind>,
}

impl View for HtmlAggregator {
    type V = Seq<Event<'static>>;

    /// The events ingested so far, in order.
    closed spec fn view(&self) -> Seq<Event<'static>> {
        self.events@
    }
}

impl HtmlAggregator {
    #[verifier::type_invariant]
    closed spec fn kinds_read(self) -> bool {
        kind_views(self.kinds@) == kinds_of(self.events@)
    }

    /// Creates an aggregator that has ingested nothing.
    pub fn new() -> (a: Self)
        ensures
            a@ == Seq::<Event<'static>>::empty(),
    {
        let events: Vec<Event<'static>> = Vec::new();
        let kinds: Vec<EventKind> = Vec::new();
        assert(kind_views(kinds@) =~= kinds_of(events@));
        HtmlAggregator { events, kinds }
    }

    /// Ingests the next event.
    pub fn ingest(self, event: Event<'static>) -> (a: Self)
        ensures
            a@ == self@.push(event),
    {
        proof {
            use_type_invariant(&self);
        }
        let mut events = self.events;
        let mut kinds = self.kinds;
        let ghost old_events = events@;
        let ghost old_kinds = kinds@;
        let k = event_kind(&event);
        kinds.push(k);
        events.push(event);
        assert(kind_views(kinds@) =~= kinds_of(events@)) by {
            assert(kind_views(old_kinds).len() == kinds_of(old_events).len());
            assert(kinds@.len() == events@.len());
            assert forall|i: int| 0 <= i < kinds@.len() implies #[trigger] kind_views(kinds@)[i] == kinds_of(events@)[i] by {
                if i < old_kinds.len() {
                    assert(kind_views(old_kinds)[i] == kinds_of(old_events)[i]);
                }
            }
        }
        HtmlAggregator { events, kinds }
    }

    /// The HTML of the ingested events, each heading start without an
    /// explicit id given the slug of its text (see `with_heading_ids`).
    pub fn to_html_string(self) -> (r: String)
        ensures
            r@ == pushed_html(with_heading_ids(self@)),
    {
        proof {
            use_type_invariant(&self);
        }
        let ghost evs = self.events@;
        let ghost target = with_heading_ids(evs);
        let HtmlAggregator { events, kinds } = self;
        assert(kind_views(kinds@).len() == kinds_of(evs).len());
        let ids = heading_ids(&kinds);
        let mut processed: Vec<Event<'static>> = Vec::new();
        for e in it: events.into_iter()
            invariant
                it.seq() == evs,
                target == with_heading_ids(evs),
                kind_views(kinds@) == kinds_of(evs),
                ids@.len() == evs.len(),
                forall|k: int| 0 <= k < evs.len() ==> opt_view(#[trigger] ids@[k]) == heading_id_at(kinds_of(evs), k),
                processed@ == target.take(it.index() as int),
        {
            let i = processed.len();
            assert(opt_view(ids@[i as int]) == heading_id_at(kinds_of(evs), i as int));
            let out = match &ids[i] {
                Some(id) => with_heading_id(&e, str_to_string(id.as_str())),
                None => e,
            };
            processed.push(out);
            assert(processed@ =~= target.take(it.index() + 1));
        }
        assert(processed@ =~= target);
        events_html(processed)
    }
}

} // verus!
