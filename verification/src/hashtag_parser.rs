//! Hashtag detection in markdown text.
//!
//! A hashtag is a `#` at the start of the text or right after whitespace or
//! one of `(`, `[`, `{`, followed by one or more characters that are
//! alphanumeric, `_` or `-`; the hashtag's category is those characters.
use vstd::prelude::*;
use vstd::utf8::{encode_utf8, encode_scalar};
use crate::text::{
    is_alphanumeric_char, is_whitespace_char, byte_offset, char_is_whitespace, char_is_alphanumeric,
    sub_chars, string_from_chars, byte_offsets, lemma_encode_utf8_concat, lemma_byte_offset_step,
};

verus! {

/// A hashtag found in a text: the byte range `start..end` of `#category`
/// in the text's UTF-8 encoding, and the category name.
pub struct Hashtag {
    pub start: usize,
    pub end: usize,
    pub category: String,
}

impl View for Hashtag {
    type V = (int, int, Seq<char>);

    open spec fn view(&self) -> (int, int, Seq<char>) {
        (self.start as int, self.end as int, self.category@)
    }
}

/// Characters that may form a category name.
pub open spec fn is_tag_char(c: char) -> bool {
    is_alphanumeric_char(c) || c == '_' || c == '-'
}

/// `#` is no category character: it is no ASCII letter or digit.
pub proof fn lemma_hash_is_no_tag_char()
    ensures
        !is_tag_char('#'),
{
    assert(('#' as u32) == 0x23);
}

/// Characters after which a `#` may open a hashtag.
pub open spec fn opens_hashtag(c: char) -> bool {
    is_whitespace_char(c) || c == '(' || c == '[' || c == '{'
}

/// The end of the run of category characters that starts at `i`.
pub open spec fn tag_end(s: Seq<char>, i: int) -> int
    decreases s.len() - i,
{
    if 0 <= i < s.len() && is_tag_char(s[i]) {
        tag_end(s, i + 1)
    } else {
        i
    }
}

/// A hashtag starts at character position `i` of `s`.
pub open spec fn starts_hashtag(s: Seq<char>, i: int) -> bool {
    &&& 0 <= i < s.len()
    &&& s[i] == '#'
    &&& (i == 0 || opens_hashtag(s[i - 1]))
    &&& tag_end(s, i + 1) > i + 1
}

/// The hashtag that starts at character position `i`: its byte range and
/// its category.
pub open spec fn hashtag_span(s: Seq<char>, i: int) -> (int, int, Seq<char>) {
    (byte_offset(s, i), byte_offset(s, tag_end(s, i + 1)), s.subrange(i + 1, tag_end(s, i + 1)))
}

/// The character positions, from `i` on, where hashtags start, in order.
pub open spec fn hashtag_positions_from(s: Seq<char>, i: int) -> Seq<int>
    decreases s.len() - i,
{
    if i < 0 || i >= s.len() {
        seq![]
    } else if starts_hashtag(s, i) {
        seq![i] + hashtag_positions_from(s, i + 1)
    } else {
        hashtag_positions_from(s, i + 1)
    }
}

/// The character positions where hashtags start, in order.
pub open spec fn hashtag_positions(s: Seq<char>) -> Seq<int> {
    hashtag_positions_from(s, 0)
}

/// The hashtags of `s`, in the order in which they occur.
pub open spec fn hashtags(s: Seq<char>) -> Seq<(int, int, Seq<char>)> {
    hashtag_positions(s).map_values(|i: int| hashtag_span(s, i))
}

/// Whether `c` may open a hashtag.
pub fn char_opens_hashtag(c: char) -> (r: bool)
    ensures
        r == opens_hashtag(c),
{
    char_is_whitespace(c) || c == '(' || c == '[' || c == '{'
}

/// Whether `c` may be part of a category name.
pub fn char_is_tag_char(c: char) -> (r: bool)
    ensures
        r == is_tag_char(c),
{
    char_is_alphanumeric(c) || c == '_' || c == '-'
}

/// The end of the run of category characters starting at `i`.
pub fn scan_tag_end(v: &Vec<char>, i: usize) -> (e: usize)
    requires
        i <= v.len(),
    ensures
        e == tag_end(v@, i as int),
        i <= e <= v.len(),
{
    let mut j = i;
    while j < v.len() && char_is_tag_char(v[j])
        invariant
            i <= j <= v.len(),
            tag_end(v@, i as int) == tag_end(v@, j as int),
        decreases v.len() - j,
    {
        j += 1;
    }
    j
}

/// The character positions in `v` where hashtags start, in order.
pub fn find_hashtag_positions(v: &Vec<char>) -> (r: Vec<usize>)
    ensures
        r@.map_values(|p: usize| p as int) == hashtag_positions(v@),
{
    let mut r: Vec<usize> = Vec::new();
    let mut i: usize = 0;
    assert(r@.map_values(|p: usize| p as int) =~= Seq::<int>::empty());
    while i < v.len()
        invariant
            0 <= i <= v.len(),
            r@.map_values(|p: usize| p as int) + hashtag_positions_from(v@, i as int) == hashtag_positions(v@),
        decreases v.len() - i,
    {
        let ghost s = v@;
        let ghost before = r@.map_values(|p: usize| p as int);
        if v[i] == '#' && (i == 0 || char_opens_hashtag(v[i - 1])) && scan_tag_end(v, i + 1) > i + 1 {
            assert(starts_hashtag(s, i as int));
            r.push(i);
            proof {
                assert(r@.map_values(|p: usize| p as int) =~= before.push(i as int));
                assert(hashtag_positions_from(s, i as int) == seq![i as int] + hashtag_positions_from(s, i + 1));
                assert(before.push(i as int) + hashtag_positions_from(s, i + 1) =~= before + hashtag_positions_from(s, i as int));
            }
        } else {
            assert(!starts_hashtag(s, i as int));
        }
        i += 1;
    }
    r
}

/// Finds the hashtags of `text`, in order (see the module's documentation
/// for what a hashtag is). Each result gives the byte range of
/// `#category` in `text` and the category.
pub fn parse_hashtags(text: &str) -> (tags: Vec<Hashtag>)
    ensures
        tags@.map_values(|t: Hashtag| t@) == hashtags(text@),
{
    let (v, offs) = byte_offsets(text);
    let positions = find_hashtag_positions(&v);
    let ghost pos = positions@.map_values(|p: usize| p as int);
    proof {
        lemma_hashtag_positions_from(text@, 0);
    }
    let mut tags: Vec<Hashtag> = Vec::new();
    let mut k: usize = 0;
    while k < positions.len()
        invariant
            v@ == text@,
            offs@.len() == text@.len() + 1,
            forall|j: int| 0 <= j <= text@.len() ==> offs@[j] == byte_offset(text@, j),
            pos == positions@.map_values(|p: usize| p as int),
            pos == hashtag_positions(text@),
            forall|j: int| 0 <= j < pos.len() ==> 0 <= #[trigger] pos[j] < text@.len() && starts_hashtag(text@, pos[j]),
            0 <= k <= positions.len(),
            tags@.len() == k,
            forall|j: int| 0 <= j < k ==> tags@[j]@ == hashtag_span(text@, #[trigger] pos[j]),
        decreases positions.len() - k,
    {
        let i = positions[k];
        assert(pos[k as int] == i);
        let end = scan_tag_end(&v, i + 1);
        let cat_chars = sub_chars(&v, i + 1, end);
        let category = string_from_chars(cat_chars.as_slice());
        tags.push(Hashtag { start: offs[i], end: offs[end], category });
        k += 1;
    }
    assert(tags@.map_values(|t: Hashtag| t@) =~= hashtags(text@));
    tags
}

// ---------------------------------------------------------------------
// What every result of `parse_hashtags` satisfies.
// ---------------------------------------------------------------------

/// The run of category characters from `i` ends at the first other
/// character or at the end of the text.
pub proof fn lemma_tag_end(s: Seq<char>, i: int)
    requires
        0 <= i <= s.len(),
    ensures
        i <= tag_end(s, i) <= s.len(),
        forall|j: int| i <= j < tag_end(s, i) ==> is_tag_char(#[trigger] s[j]),
        tag_end(s, i) < s.len() ==> !is_tag_char(s[tag_end(s, i)]),
    decreases s.len() - i,
{
    if i < s.len() && is_tag_char(s[i]) {
        lemma_tag_end(s, i + 1);
    }
}

/// The positions from `i` are exactly the positions `>= i` where a hashtag
/// starts, in increasing order.
pub proof fn lemma_hashtag_positions_from(s: Seq<char>, i: int)
    requires
        0 <= i,
    ensures
        forall|k: int| 0 <= k < hashtag_positions_from(s, i).len() ==> {
            let p = #[trigger] hashtag_positions_from(s, i)[k];
            i <= p < s.len() && starts_hashtag(s, p)
        },
        forall|k1: int, k2: int| 0 <= k1 < k2 < hashtag_positions_from(s, i).len()
            ==> hashtag_positions_from(s, i)[k1] < hashtag_positions_from(s, i)[k2],
        forall|p: int| i <= p && #[trigger] starts_hashtag(s, p) ==> hashtag_positions_from(s, i).contains(p),
    decreases s.len() - i,
{
    if i < s.len() {
        lemma_hashtag_positions_from(s, i + 1);
        let rest = hashtag_positions_from(s, i + 1);
        if starts_hashtag(s, i) {
            let all = seq![i] + rest;
            assert(hashtag_positions_from(s, i) == all);
            assert forall|k: int| 0 <= k < all.len() implies {
                let p = #[trigger] all[k];
                i <= p < s.len() && starts_hashtag(s, p)
            } by {
                if k > 0 {
                    assert(all[k] == rest[k - 1]);
                }
            }
            assert forall|k1: int, k2: int| 0 <= k1 < k2 < all.len() implies all[k1] < all[k2] by {
                assert(all[k2] == rest[k2 - 1]);
                if k1 > 0 {
                    assert(all[k1] == rest[k1 - 1]);
                }
            }
            assert forall|p: int| i <= p && #[trigger] starts_hashtag(s, p) implies all.contains(p) by {
                if p == i {
                    assert(all[0] == i);
                } else {
                    assert(rest.contains(p));
                    let k = choose|k: int| 0 <= k < rest.len() && rest[k] == p;
                    assert(all[k + 1] == p);
                }
            }
        }
    }
}

/// Offsets grow with positions.
pub proof fn lemma_byte_offset_monotone(s: Seq<char>, a: int, b: int)
    requires
        0 <= a <= b <= s.len(),
    ensures
        byte_offset(s, a) <= byte_offset(s, b),
{
    assert(s.take(b) =~= s.take(a) + s.subrange(a, b));
    lemma_encode_utf8_concat(s.take(a), s.subrange(a, b));
}

/// The bytes between two offsets encode the characters between the two
/// positions.
pub proof fn lemma_byte_range(s: Seq<char>, a: int, b: int)
    requires
        0 <= a <= b <= s.len(),
    ensures
        byte_offset(s, a) <= byte_offset(s, b) <= encode_utf8(s).len(),
        encode_utf8(s).subrange(byte_offset(s, a), byte_offset(s, b)) == encode_utf8(s.subrange(a, b)),
{
    assert(s =~= s.take(a) + s.subrange(a, b) + s.skip(b));
    assert(s.take(b) =~= s.take(a) + s.subrange(a, b));
    lemma_encode_utf8_concat(s.take(a), s.subrange(a, b));
    lemma_encode_utf8_concat(s.take(b), s.skip(b));
    assert(s =~= s.take(b) + s.skip(b));
    let ea = encode_utf8(s.take(a));
    let em = encode_utf8(s.subrange(a, b));
    assert(encode_utf8(s).subrange(ea.len() as int, (ea.len() + em.len()) as int) =~= em);
}

/// Law: every hashtag that `parse_hashtags` reports is a `#` followed by its
/// non-empty category, at the reported byte range of the text; the
/// category is a maximal run of category characters; the `#` opens the text
/// or follows whitespace or an opening bracket; hashtags come in text order
/// and do not overlap; and every such `#` in the text is reported.
pub proof fn law_hashtags_sound_and_complete(s: Seq<char>)
    ensures
        forall|k: int| 0 <= k < hashtags(s).len() ==> {
            let h = #[trigger] hashtags(s)[k];
            &&& h.2.len() > 0
            &&& forall|j: int| 0 <= j < h.2.len() ==> is_tag_char(h.2[j])
            &&& 0 <= h.0 < h.1 <= encode_utf8(s).len()
            &&& encode_utf8(s).subrange(h.0, h.1) == encode_utf8(seq!['#'] + h.2)
            &&& exists|p: int| {
                &&& #[trigger] starts_hashtag(s, p)
                &&& s[p] == '#'
                &&& (p == 0 || opens_hashtag(s[p - 1]))
                &&& h == hashtag_span(s, p)
                &&& (p + 1 + h.2.len() < s.len() ==> !is_tag_char(s[p + 1 + h.2.len()]))
            }
        },
        forall|k1: int, k2: int| 0 <= k1 < k2 < hashtags(s).len() ==> hashtags(s)[k1].0 < hashtags(s)[k2].0,
        forall|k1: int, k2: int|
            0 <= k1 < k2 < hashtags(s).len() ==> #[trigger] hashtags(s)[k1].1 <= #[trigger] hashtags(s)[k2].0,
        forall|p: int| #[trigger] starts_hashtag(s, p) ==> hashtags(s).contains(hashtag_span(s, p)),
{
    lemma_hashtag_positions_from(s, 0);
    let pos = hashtag_positions(s);
    let hs = hashtags(s);
    assert forall|k: int| 0 <= k < hs.len() implies {
        let h = #[trigger] hs[k];
        &&& h.2.len() > 0
        &&& forall|j: int| 0 <= j < h.2.len() ==> is_tag_char(h.2[j])
        &&& 0 <= h.0 < h.1 <= encode_utf8(s).len()
        &&& encode_utf8(s).subrange(h.0, h.1) == encode_utf8(seq!['#'] + h.2)
        &&& exists|p: int| {
            &&& #[trigger] starts_hashtag(s, p)
            &&& s[p] == '#'
            &&& (p == 0 || opens_hashtag(s[p - 1]))
            &&& h == hashtag_span(s, p)
            &&& (p + 1 + h.2.len() < s.len() ==> !is_tag_char(s[p + 1 + h.2.len()]))
        }
    } by {
        let p = pos[k];
        assert(starts_hashtag(s, p));
        lemma_tag_end(s, p + 1);
        let e = tag_end(s, p + 1);
        let h = hs[k];
        assert(h == hashtag_span(s, p));
        assert(s.subrange(p, e) =~= seq!['#'] + s.subrange(p + 1, e));
        lemma_byte_range(s, p, e);
        lemma_byte_offset_step(s, p);
        assert forall|j: int| 0 <= j < h.2.len() implies is_tag_char(h.2[j]) by {
            assert(h.2[j] == s[p + 1 + j]);
        }
        assert(h.2.len() > 0);
        lemma_byte_offset_monotone(s, p + 1, e);
        assert(encode_scalar(s[p] as u32).len() >= 1);
        assert(0 <= h.0 < h.1 <= encode_utf8(s).len());
        assert(encode_utf8(s).subrange(h.0, h.1) == encode_utf8(seq!['#'] + h.2));
        assert(p + 1 + h.2.len() == e);
        assert(starts_hashtag(s, p) && h == hashtag_span(s, p));
    }
    assert forall|k1: int, k2: int| 0 <= k1 < k2 < hs.len() implies hs[k1].0 < hs[k2].0 by {
        let p1 = pos[k1];
        let p2 = pos[k2];
        lemma_byte_offset_step(s, p1);
        lemma_byte_offset_monotone(s, p1 + 1, p2);
    }
    lemma_hash_is_no_tag_char();
    {
        assert forall|k1: int, k2: int| 0 <= k1 < k2 < hs.len() implies #[trigger] hs[k1].1 <= #[trigger] hs[k2].0 by {
            let p1 = pos[k1];
            let p2 = pos[k2];
            assert(starts_hashtag(s, p1) && starts_hashtag(s, p2) && p1 < p2);
            lemma_tag_end(s, p1 + 1);
            let e1 = tag_end(s, p1 + 1);
            if p2 < e1 {
                assert(is_tag_char(s[p2]));
            }
            lemma_byte_offset_monotone(s, e1, p2);
        }
    }
    assert forall|p: int| #[trigger] starts_hashtag(s, p) implies hs.contains(hashtag_span(s, p)) by {
        assert(pos.contains(p));
        let k = choose|k: int| 0 <= k < pos.len() && pos[k] == p;
        assert(hs[k] == hashtag_span(s, p));
    }
}

// ---------------------------------------------------------------------
// Categories are runs of alphanumerics, `_` and `-`.
// ---------------------------------------------------------------------

/// A run from `i` to `e` of characters that are alphanumeric, `_` or `-`,
/// that stops at a character of another kind or at the end of the text,
/// ends where the scan for category characters ends.
proof fn lemma_run_is_tag_end(s: Seq<char>, i: int, e: int)
    requires
        0 <= i <= e <= s.len(),
        forall|j: int| i <= j < e ==> is_alphanumeric_char(#[trigger] s[j]) || s[j] == '_' || s[j] == '-',
        e < s.len() ==> !(is_alphanumeric_char(s[e]) || s[e] == '_' || s[e] == '-'),
    ensures
        tag_end(s, i) == e,
    decreases e - i,
{
    if i < e {
        assert(is_alphanumeric_char(s[i]) || s[i] == '_' || s[i] == '-');
        lemma_run_is_tag_end(s, i + 1, e);
    }
}

/// Law: every `#` that opens the text or follows whitespace, `(`, `[` or
/// `{`, and is followed by characters that are alphanumeric (letters and
/// digits alike), `_` or `-`, starts a hashtag whose category is the whole
/// run of those characters, reported at its byte range.
pub proof fn law_hashtag_takes_whole_run(s: Seq<char>, p: int, e: int)
    requires
        0 <= p < s.len(),
        s[p] == '#',
        p == 0 || is_whitespace_char(s[p - 1]) || s[p - 1] == '(' || s[p - 1] == '[' || s[p - 1] == '{',
        p + 1 < e <= s.len(),
        forall|j: int| p < j < e ==> is_alphanumeric_char(#[trigger] s[j]) || s[j] == '_' || s[j] == '-',
        e < s.len() ==> !(is_alphanumeric_char(s[e]) || s[e] == '_' || s[e] == '-'),
    ensures
        hashtags(s).contains((byte_offset(s, p), byte_offset(s, e), s.subrange(p + 1, e))),
{
    lemma_run_is_tag_end(s, p + 1, e);
    assert(starts_hashtag(s, p));
    law_hashtags_sound_and_complete(s);
}

/// Law: every reported hashtag is a `#` that opens the text or follows
/// whitespace, `(`, `[` or `{`, with the whole run of alphanumeric, `_` and
/// `-` characters after it as its category, at its byte range.
pub proof fn law_hashtag_is_whole_run(s: Seq<char>, k: int)
    requires
        0 <= k < hashtags(s).len(),
    ensures
        exists|p: int, e: int| {
            &&& 0 <= p && p + 1 < e <= s.len()
            &&& s[p] == '#'
            &&& (p == 0 || is_whitespace_char(s[p - 1]) || s[p - 1] == '(' || s[p - 1] == '[' || s[p - 1] == '{')
            &&& (forall|j: int| p < j < e ==> is_alphanumeric_char(#[trigger] s[j]) || s[j] == '_' || s[j] == '-')
            &&& (e < s.len() ==> !(is_alphanumeric_char(s[e]) || s[e] == '_' || s[e] == '-'))
            &&& #[trigger] hashtags(s)[k] == (byte_offset(s, p), byte_offset(s, e), s.subrange(p + 1, e))
        },
{
    lemma_hashtag_positions_from(s, 0);
    let p = hashtag_positions(s)[k];
    assert(starts_hashtag(s, p));
    let e = tag_end(s, p + 1);
    lemma_tag_end(s, p + 1);
    assert(hashtags(s)[k] == hashtag_span(s, p));
    assert(forall|j: int| p < j < e ==> is_tag_char(#[trigger] s[j]));
}

} // verus!
