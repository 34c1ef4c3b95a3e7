//! An ordered map from strings to ordered sets of strings: what the analyzer
//! keeps for backlinks and categories. Keys and members are kept strictly
//! increasing in the order of strings, so listings come out sorted and
//! without duplicates.
use vstd::prelude::*;
use crate::text::{
    str_less, lemma_str_less_irreflexive, lemma_str_less_transitive, lemma_str_less_total,
    string_less, str_eq, str_to_string, lemma_str_less_asymmetric,
};

verus! {

/// The characters of each string.
pub open spec fn str_views(v: Seq<String>) -> Seq<Seq<char>> {
    v.map_values(|s: String| s@)
}

/// Strictly increasing in the order of strings (so without duplicates).
pub open spec fn sorted_strs(s: Seq<Seq<char>>) -> bool {
    forall|i: int, j: int| 0 <= i < j < s.len() ==> str_less(#[trigger] s[i], #[trigger] s[j])
}

/// Inserts `s` into the strictly increasing `v`, unless it is there.
pub fn sorted_insert(v: &mut Vec<String>, s: &str)
    requires
        sorted_strs(str_views(old(v)@)),
    ensures
        sorted_strs(str_views(final(v)@)),
        str_views(final(v)@).to_set() == str_views(old(v)@).to_set().insert(s@),
        str_views(old(v)@).contains(s@) ==> final(v)@ == old(v)@,
{
    let ghost old_views = str_views(v@);
    let mut i: usize = 0;
    while i < v.len() && string_less(v[i].as_str(), s)
        invariant
            0 <= i <= v.len(),
            v@ == old(v)@,
            old_views == str_views(old(v)@),
            forall|j: int| 0 <= j < i ==> str_less(#[trigger] old_views[j], s@),
        decreases v.len() - i,
    {
        assert(old_views[i as int] == v@[i as int]@);
        i += 1;
    }
    if i < v.len() && str_eq(v[i].as_str(), s) {
        assert(old_views[i as int] == v@[i as int]@);
        assert(old_views[i as int] == s@);
        assert(str_views(v@).to_set() =~= old_views.to_set().insert(s@));
        return;
    }
    proof {
        if i < v.len() {
            lemma_str_less_total(old_views[i as int], s@);
        }
        assert forall|j: int| i <= j < old_views.len() implies str_less(s@, #[trigger] old_views[j]) by {
            if j > i {
                lemma_str_less_transitive(s@, old_views[i as int], old_views[j]);
            }
        }
        if old_views.contains(s@) {
            let j = choose|j: int| 0 <= j < old_views.len() && old_views[j] == s@;
            if j < i {
                lemma_str_less_irreflexive(s@);
            } else {
                lemma_str_less_irreflexive(s@);
            }
        }
    }
    let owned = str_to_string(s);
    v.insert(i, owned);
    proof {
        let nv = str_views(v@);
        assert(nv =~= old_views.insert(i as int, s@));
        assert forall|a: int, b: int| 0 <= a < b < nv.len() implies str_less(#[trigger] nv[a], #[trigger] nv[b]) by {
            if b < i {
            } else if b == i {
                assert(nv[a] == old_views[a]);
            } else if a < i {
                assert(nv[b] == old_views[b - 1]);
                assert(nv[a] == old_views[a]);
                lemma_str_less_transitive(old_views[a], s@, old_views[b - 1]);
            } else if a == i {
                assert(nv[b] == old_views[b - 1]);
            } else {
                assert(nv[b] == old_views[b - 1]);
                assert(nv[a] == old_views[a - 1]);
            }
        }
        assert forall|x: Seq<char>| nv.contains(x) <==> old_views.insert(i as int, s@).contains(x) by {}
        assert(nv.to_set() =~= old_views.to_set().insert(s@)) by {
            assert forall|x: Seq<char>| nv.contains(x) implies old_views.to_set().insert(s@).contains(x) by {
                let k = choose|k: int| 0 <= k < nv.len() && nv[k] == x;
                if k < i {
                    assert(old_views[k] == x);
                } else if k > i {
                    assert(old_views[k - 1] == x);
                }
            }
            assert forall|x: Seq<char>| old_views.to_set().insert(s@).contains(x) implies nv.contains(x) by {
                if x == s@ {
                    assert(nv[i as int] == x);
                } else {
                    let k = choose|k: int| 0 <= k < old_views.len() && old_views[k] == x;
                    if k < i {
                        assert(nv[k] == x);
                    } else {
                        assert(nv[k + 1] == x);
                    }
                }
            }
        }
    }
}

/// The strictly increasing sequence whose elements are those of `s`.
pub open spec fn sorted_seq_of(s: Set<Seq<char>>) -> Seq<Seq<char>> {
    choose|q: Seq<Seq<char>>| sorted_strs(q) && q.to_set() == s
}

/// The members under `k` in increasing order; none when `k` is absent.
pub open spec fn listing(m: Map<Seq<char>, Set<Seq<char>>>, k: Seq<char>) -> Seq<Seq<char>> {
    if m.contains_key(k) {
        sorted_seq_of(m[k])
    } else {
        Seq::<Seq<char>>::empty()
    }
}

/// Two strictly increasing sequences with the same elements are equal.
pub proof fn lemma_sorted_unique(a: Seq<Seq<char>>, b: Seq<Seq<char>>)
    requires
        sorted_strs(a),
        sorted_strs(b),
        a.to_set() == b.to_set(),
    ensures
        a == b,
    decreases a.len(),
{
    if a.len() == 0 {
        if b.len() > 0 {
            assert(b.to_set().contains(b[0]));
        }
        assert(a =~= b);
    } else {
        assert(a.to_set().contains(a[0]));
        assert(b.len() > 0) by {
            if b.len() == 0 {
                assert(b.contains(a[0]));
            }
        }
        assert(b.to_set().contains(b[0]));
        let i = choose|i: int| 0 <= i < a.len() && a[i] == b[0];
        let j = choose|j: int| 0 <= j < b.len() && b[j] == a[0];
        if a[0] != b[0] {
            assert(i > 0 && j > 0);
            assert(str_less(a[0], a[i]));
            assert(str_less(b[0], b[j]));
            lemma_str_less_asymmetric(a[0], b[0]);
        }
        let ra = a.drop_first();
        let rb = b.drop_first();
        assert(sorted_strs(ra)) by {
            assert forall|x: int, y: int| 0 <= x < y < ra.len() implies str_less(#[trigger] ra[x], #[trigger] ra[y]) by {
                assert(ra[x] == a[x + 1] && ra[y] == a[y + 1]);
            }
        }
        assert(sorted_strs(rb)) by {
            assert forall|x: int, y: int| 0 <= x < y < rb.len() implies str_less(#[trigger] rb[x], #[trigger] rb[y]) by {
                assert(rb[x] == b[x + 1] && rb[y] == b[y + 1]);
            }
        }
        assert(ra.to_set() =~= rb.to_set()) by {
            assert forall|x: Seq<char>| ra.to_set().contains(x) implies rb.to_set().contains(x) by {
                let k = choose|k: int| 0 <= k < ra.len() && ra[k] == x;
                assert(a[k + 1] == x);
                assert(a.to_set().contains(x));
                let m = choose|m: int| 0 <= m < b.len() && b[m] == x;
                if m == 0 {
                    assert(str_less(a[0], a[k + 1]));
                    lemma_str_less_irreflexive(x);
                }
                assert(rb[m - 1] == x);
            }
            assert forall|x: Seq<char>| rb.to_set().contains(x) implies ra.to_set().contains(x) by {
                let k = choose|k: int| 0 <= k < rb.len() && rb[k] == x;
                assert(b[k + 1] == x);
                assert(b.to_set().contains(x));
                let m = choose|m: int| 0 <= m < a.len() && a[m] == x;
                if m == 0 {
                    assert(str_less(b[0], b[k + 1]));
                    lemma_str_less_irreflexive(x);
                }
                assert(ra[m - 1] == x);
            }
        }
        lemma_sorted_unique(ra, rb);
        assert(a =~= seq![a[0]] + ra);
        assert(b =~= seq![b[0]] + rb);
    }
}

/// Where `x` goes in the strictly increasing `q` that lacks it.
proof fn lemma_insert_position(q: Seq<Seq<char>>, x: Seq<char>) -> (i: int)
    requires
        sorted_strs(q),
        !q.contains(x),
    ensures
        0 <= i <= q.len(),
        forall|j: int| 0 <= j < i ==> str_less(#[trigger] q[j], x),
        forall|j: int| i <= j < q.len() ==> str_less(x, #[trigger] q[j]),
    decreases q.len(),
{
    if q.len() == 0 {
        0
    } else {
        let init = q.drop_last();
        assert(sorted_strs(init)) by {
            assert forall|a: int, b: int| 0 <= a < b < init.len() implies str_less(#[trigger] init[a], #[trigger] init[b]) by {
                assert(init[a] == q[a] && init[b] == q[b]);
            }
        }
        assert(!init.contains(x)) by {
            if init.contains(x) {
                let t = choose|t: int| 0 <= t < init.len() && init[t] == x;
                assert(q[t] == x);
            }
        }
        let k = lemma_insert_position(init, x);
        let last = q[q.len() - 1];
        assert(last != x) by {
            assert(q.contains(last));
        }
        lemma_str_less_total(last, x);
        if str_less(last, x) {
            assert forall|j: int| 0 <= j < q.len() implies str_less(#[trigger] q[j], x) by {
                if j < q.len() - 1 {
                    lemma_str_less_transitive(q[j], last, x);
                }
            }
            q.len() as int
        } else {
            assert forall|j: int| k <= j < q.len() implies str_less(x, #[trigger] q[j]) by {
                if j < q.len() - 1 {
                    assert(init[j] == q[j]);
                }
            }
            assert forall|j: int| 0 <= j < k implies str_less(#[trigger] q[j], x) by {
                assert(init[j] == q[j]);
            }
            k
        }
    }
}

/// Every finite set of strings has a strictly increasing enumeration, so
/// `sorted_seq_of` gives one.
pub proof fn lemma_sorted_seq_exists(s: Set<Seq<char>>)
    requires
        s.finite(),
    ensures
        sorted_strs(sorted_seq_of(s)),
        sorted_seq_of(s).to_set() == s,
    decreases s.len(),
{
    if s.len() == 0 {
        let q = Seq::<Seq<char>>::empty();
        assert(q.to_set() =~= s) by {
            if exists|x: Seq<char>| s.contains(x) {
                let x = choose|x: Seq<char>| s.contains(x);
                assert(s.remove(x).len() < s.len());
            }
        }
        assert(sorted_strs(q));
    } else {
        let x = s.choose();
        assert(s.contains(x)) by {
            if !s.contains(x) {
                assert(s =~= Set::<Seq<char>>::empty()) by {
                    assert forall|y: Seq<char>| !s.contains(y) by {}
                }
            }
        }
        let rest = s.remove(x);
        lemma_sorted_seq_exists(rest);
        let q = sorted_seq_of(rest);
        assert(!q.contains(x)) by {
            if q.contains(x) {
                assert(q.to_set().contains(x));
            }
        }
        let i = lemma_insert_position(q, x);
        lemma_insert_key_sorted(q, i, x);
        let r = q.insert(i, x);
        assert(r.to_set() =~= s) by {
            assert forall|y: Seq<char>| r.to_set().contains(y) implies s.contains(y) by {
                let t = choose|t: int| 0 <= t < r.len() && r[t] == y;
                if t < i {
                    assert(q[t] == y);
                    assert(q.to_set().contains(y));
                } else if t > i {
                    assert(q[t - 1] == y);
                    assert(q.to_set().contains(y));
                }
            }
            assert forall|y: Seq<char>| s.contains(y) implies r.to_set().contains(y) by {
                if y == x {
                    assert(r[i] == y);
                } else {
                    assert(rest.contains(y));
                    assert(q.to_set().contains(y));
                    let t = choose|t: int| 0 <= t < q.len() && q[t] == y;
                    if t < i {
                        assert(r[t] == y);
                    } else {
                        assert(r[t + 1] == y);
                    }
                }
            }
        }
        assert(sorted_strs(r) && r.to_set() == s);
    }
}

/// Law: a listing names every member of its set once, in increasing
/// order, and nothing else.
pub proof fn law_listing_sorted_without_duplicates(m: Map<Seq<char>, Set<Seq<char>>>, k: Seq<char>)
    requires
        m.contains_key(k),
        m[k].finite(),
    ensures
        sorted_strs(listing(m, k)),
        listing(m, k).no_duplicates(),
        listing(m, k).to_set() == m[k],
{
    lemma_sorted_seq_exists(m[k]);
    let q = listing(m, k);
    assert forall|a: int, b: int| 0 <= a < q.len() && 0 <= b < q.len() && a != b implies q[a] != q[b] by {
        if a < b {
            assert(str_less(q[a], q[b]));
            lemma_str_less_irreflexive(q[a]);
        } else {
            assert(str_less(q[b], q[a]));
            lemma_str_less_irreflexive(q[b]);
        }
    }
}

/// A strictly increasing sequence is the sorted sequence of its elements.
pub proof fn lemma_sorted_seq_of(q: Seq<Seq<char>>)
    requires
        sorted_strs(q),
    ensures
        sorted_seq_of(q.to_set()) == q,
{
    let r = sorted_seq_of(q.to_set());
    assert(sorted_strs(r) && r.to_set() == q.to_set());
    lemma_sorted_unique(r, q);
}

/// The keys of a list of entries.
pub open spec fn keys_of(es: Seq<(String, Vec<String>)>) -> Seq<Seq<char>> {
    es.map_values(|e: (String, Vec<String>)| e.0@)
}

/// The members of the `i`-th entry.
pub open spec fn members_of(es: Seq<(String, Vec<String>)>, i: int) -> Seq<Seq<char>> {
    str_views(es[i].1@)
}

/// Keys strictly increasing; members of each key non-empty and strictly
/// increasing.
pub open spec fn entries_wf(es: Seq<(String, Vec<String>)>) -> bool {
    &&& sorted_strs(keys_of(es))
    &&& forall|i: int| 0 <= i < es.len() ==> {
        &&& sorted_strs(#[trigger] members_of(es, i))
        &&& members_of(es, i).len() > 0
    }
}

/// A position of the entry for `k`.
pub open spec fn key_index(es: Seq<(String, Vec<String>)>, k: Seq<char>) -> int {
    choose|i: int| 0 <= i < es.len() && keys_of(es)[i] == k
}

/// The map from each key to the set of its members.
pub open spec fn map_of(es: Seq<(String, Vec<String>)>) -> Map<Seq<char>, Set<Seq<char>>> {
    Map::new(
        |k: Seq<char>| keys_of(es).contains(k),
        |k: Seq<char>| members_of(es, key_index(es, k)).to_set(),
    )
}

/// With increasing keys, the `i`-th entry is the one for its key.
pub proof fn lemma_map_of_at(es: Seq<(String, Vec<String>)>, i: int)
    requires
        0 <= i < es.len(),
        sorted_strs(keys_of(es)),
    ensures
        map_of(es).contains_key(keys_of(es)[i]),
        map_of(es)[keys_of(es)[i]] == members_of(es, i).to_set(),
{
    let ks = keys_of(es);
    let k = ks[i];
    assert(ks.contains(k));
    assert(exists|j: int| 0 <= j < es.len() && keys_of(es)[j] == k);
    let j = key_index(es, k);
    assert(map_of(es)[k] == members_of(es, j).to_set());
    if j < i {
        assert(str_less(ks[j], ks[i]));
        lemma_str_less_irreflexive(k);
    } else if j > i {
        assert(str_less(ks[i], ks[j]));
        lemma_str_less_irreflexive(k);
    }
}

/// Inserting `key` at position `i`, before the first larger key, keeps the
/// keys increasing.
proof fn lemma_insert_key_sorted(ks: Seq<Seq<char>>, i: int, key: Seq<char>)
    requires
        sorted_strs(ks),
        0 <= i <= ks.len(),
        forall|j: int| 0 <= j < i ==> str_less(#[trigger] ks[j], key),
        forall|j: int| i <= j < ks.len() ==> str_less(key, #[trigger] ks[j]),
    ensures
        sorted_strs(ks.insert(i, key)),
{
    let nk = ks.insert(i, key);
    assert forall|a: int, b: int| 0 <= a < b < nk.len() implies str_less(#[trigger] nk[a], #[trigger] nk[b]) by {
        if b < i {
        } else if b == i {
            assert(nk[a] == ks[a]);
        } else if a < i {
            assert(nk[b] == ks[b - 1]);
            assert(nk[a] == ks[a]);
            lemma_str_less_transitive(ks[a], key, ks[b - 1]);
        } else if a == i {
            assert(nk[b] == ks[b - 1]);
        } else {
            assert(nk[b] == ks[b - 1]);
            assert(nk[a] == ks[a - 1]);
        }
    }
}

/// An ordered map from strings to non-empty ordered sets of strings.
pub struct SortedSetMap {
    entries: Vec<(String, Vec<String>)>,
}

impl View for SortedSetMap {
    type V = Map<Seq<char>, Set<Seq<char>>>;
    /// The map from each key to the set of its members.
    closed spec fn view(&self) -> Map<Seq<char>, Set<Seq<char>>> {
        map_of(self.entries@)
    }
}

impl SortedSetMap {
    #[verifier::type_invariant]
    closed spec fn well_formed(self) -> bool {
        entries_wf(self.entries@)
    }


    /// An empty map.
    pub fn new() -> (m: Self)
        ensures
            m.view() == Map::<Seq<char>, Set<Seq<char>>>::empty(),
    {
        let m = SortedSetMap { entries: Vec::new() };
        assert(m.view() =~= Map::<Seq<char>, Set<Seq<char>>>::empty());
        m
    }

    /// The number of keys.
    pub fn len(&self) -> (n: usize)
        ensures
            n == self.view().len(),
    {
        proof {
            use_type_invariant(self);
            let ks = keys_of(self.entries@);
            assert(ks.no_duplicates()) by {
                assert forall|a: int, b: int| 0 <= a < ks.len() && 0 <= b < ks.len() && a != b implies ks[a] != ks[b] by {
                    if a < b {
                        assert(str_less(ks[a], ks[b]));
                    } else {
                        assert(str_less(ks[b], ks[a]));
                    }
                    lemma_str_less_irreflexive(ks[a]);
                }
            }
            ks.unique_seq_to_set();
            assert(self.view().dom() =~= ks.to_set());
        }
        self.entries.len()
    }

    /// Adds `value` to the set under `key`, creating the key if needed.
    pub fn insert(&mut self, key: &str, value: &str)
        ensures
            final(self).view() == old(self).view().insert(
                key@,
                if old(self).view().contains_key(key@) {
                    old(self).view()[key@].insert(value@)
                } else {
                    Set::<Seq<char>>::empty().insert(value@)
                },
            ),
    {
        proof {
            use_type_invariant(&*self);
        }
        let ghost old_es = self.entries@;
        let ghost old_map = map_of(old_es);
        let ghost old_keys = keys_of(old_es);
        let mut entries: Vec<(String, Vec<String>)> = Vec::new();
        std::mem::swap(&mut entries, &mut self.entries);
        let mut i: usize = 0;
        while i < entries.len() && string_less(entries[i].0.as_str(), key)
            invariant
                entries@ == old_es,
                old_keys == keys_of(old_es),
                0 <= i <= entries.len(),
                forall|j: int| 0 <= j < i ==> str_less(#[trigger] old_keys[j], key@),
            decreases entries.len() - i,
        {
            assert(old_keys[i as int] == entries@[i as int].0@);
            i += 1;
        }
        if i < entries.len() && str_eq(entries[i].0.as_str(), key) {
            proof {
                assert(old_keys[i as int] == key@);
                lemma_map_of_at(old_es, i as int);
            }
            let (k, mut members) = entries.remove(i);
            assert(str_views(members@) == members_of(old_es, i as int));
            sorted_insert(&mut members, value);
            proof {
                assert(str_views(members@).to_set().contains(value@));
                assert(str_views(members@).len() > 0);
            }
            let ghost new_members = str_views(members@);
            entries.insert(i, (k, members));
            proof {
                let es = entries@;
                assert(members_of(es, i as int) == new_members);
                assert(keys_of(es) =~= old_keys);
                assert forall|j: int| 0 <= j < es.len() && j != i implies #[trigger] members_of(es, j) == members_of(old_es, j) by {}
                assert(entries_wf(es));
                let expected = old_map.insert(key@, old_map[key@].insert(value@));
                assert forall|k2: Seq<char>| #[trigger] map_of(es).contains_key(k2) == expected.contains_key(k2) by {}
                assert forall|k2: Seq<char>| map_of(es).contains_key(k2) implies #[trigger] map_of(es)[k2] == expected[k2] by {
                    let j = choose|j: int| 0 <= j < old_keys.len() && old_keys[j] == k2;
                    lemma_map_of_at(es, j);
                    lemma_map_of_at(old_es, j);
                }
                assert(map_of(es) =~= expected);
            }
            self.entries = entries;
        } else {
            proof {
                if i < entries.len() {
                    assert(old_keys[i as int] != key@);
                    lemma_str_less_total(old_keys[i as int], key@);
                }
                assert forall|j: int| i <= j < old_keys.len() implies str_less(key@, #[trigger] old_keys[j]) by {
                    if j > i {
                        assert(str_less(old_keys[i as int], old_keys[j]));
                        lemma_str_less_transitive(key@, old_keys[i as int], old_keys[j]);
                    }
                }
                assert(!old_keys.contains(key@)) by {
                    if old_keys.contains(key@) {
                        let j = choose|j: int| 0 <= j < old_keys.len() && old_keys[j] == key@;
                        lemma_str_less_irreflexive(key@);
                    }
                }
            }
            let mut members: Vec<String> = Vec::new();
            assert(str_views(members@) =~= Seq::<Seq<char>>::empty());
            sorted_insert(&mut members, value);
            proof {
                assert(str_views(members@).to_set().contains(value@));
                assert(str_views(members@).len() > 0);
            }
            let ghost new_members = str_views(members@);
            let k = str_to_string(key);
            entries.insert(i, (k, members));
            proof {
                let es = entries@;
                assert(members_of(es, i as int) == new_members);
                let nk = keys_of(es);
                assert(nk =~= old_keys.insert(i as int, key@));
                lemma_insert_key_sorted(old_keys, i as int, key@);
                assert forall|j: int| 0 <= j < es.len() implies {
                    &&& sorted_strs(#[trigger] members_of(es, j))
                    &&& members_of(es, j).len() > 0
                } by {
                    if j < i {
                        assert(members_of(es, j) == members_of(old_es, j));
                    } else if j > i {
                        assert(members_of(es, j) == members_of(old_es, j - 1));
                    }
                }
                assert(entries_wf(es));
                let expected = old_map.insert(key@, Set::<Seq<char>>::empty().insert(value@));
                assert forall|k2: Seq<char>| #[trigger] map_of(es).contains_key(k2) == expected.contains_key(k2) by {
                    if k2 == key@ {
                        assert(nk[i as int] == key@);
                    } else if old_keys.contains(k2) {
                        let j = choose|j: int| 0 <= j < old_keys.len() && old_keys[j] == k2;
                        if j < i {
                            assert(nk[j] == k2);
                        } else {
                            assert(nk[j + 1] == k2);
                        }
                    } else if nk.contains(k2) {
                        let j = choose|j: int| 0 <= j < nk.len() && nk[j] == k2;
                        if j < i {
                            assert(old_keys[j] == k2);
                        } else if j > i {
                            assert(old_keys[j - 1] == k2);
                        }
                    }
                }
                assert forall|k2: Seq<char>| map_of(es).contains_key(k2) implies #[trigger] map_of(es)[k2] == expected[k2] by {
                    let j = choose|j: int| 0 <= j < nk.len() && nk[j] == k2;
                    lemma_map_of_at(es, j);
                    if j < i {
                        lemma_map_of_at(old_es, j);
                        assert(members_of(es, j) == members_of(old_es, j));
                    } else if j > i {
                        lemma_map_of_at(old_es, j - 1);
                        assert(members_of(es, j) == members_of(old_es, j - 1));
                    } else {
                        assert(members_of(es, j).to_set() =~= Set::<Seq<char>>::empty().insert(value@));
                    }
                }
                assert(map_of(es) =~= expected);
            }
            self.entries = entries;
        }
    }

    /// The members under `key`, in increasing order, if `key` is present.
    pub fn get(&self, key: &str) -> (r: Option<&Vec<String>>)
        ensures
            r is Some <==> self.view().contains_key(key@),
            r matches Some(v) ==> {
                &&& sorted_strs(str_views(v@))
                &&& str_views(v@).to_set() == self.view()[key@]
                &&& str_views(v@) == listing(self.view(), key@)
            },
    {
        proof {
            use_type_invariant(self);
        }
        let ghost es = self.entries@;
        let mut i: usize = 0;
        while i < self.entries.len()
            invariant
                es == self.entries@,
                entries_wf(es),
                0 <= i <= es.len(),
                forall|j: int| 0 <= j < i ==> #[trigger] keys_of(es)[j] != key@,
            decreases es.len() - i,
        {
            assert(keys_of(es)[i as int] == es[i as int].0@);
            if str_eq(self.entries[i].0.as_str(), key) {
                proof {
                    lemma_map_of_at(es, i as int);
                    assert(members_of(es, i as int) == str_views(self.entries@[i as int].1@));
                    lemma_sorted_seq_of(members_of(es, i as int));
                }
                return Some(&self.entries[i].1);
            }
            i += 1;
        }
        proof {
            assert(!keys_of(es).contains(key@)) by {
                if keys_of(es).contains(key@) {
                    let j = choose|j: int| 0 <= j < keys_of(es).len() && keys_of(es)[j] == key@;
                    assert(keys_of(es)[j] != key@);
                }
            }
        }
        None
    }

    /// The keys, in increasing order.
    pub fn keys(&self) -> (r: Vec<String>)
        ensures
            sorted_strs(str_views(r@)),
            str_views(r@).to_set() == self.view().dom(),
            str_views(r@) == sorted_seq_of(self.view().dom()),
    {
        proof {
            use_type_invariant(self);
        }
        let ghost ks = keys_of(self.entries@);
        let mut r: Vec<String> = Vec::new();
        let mut i: usize = 0;
        while i < self.entries.len()
            invariant
                ks == keys_of(self.entries@),
                0 <= i <= self.entries.len(),
                sorted_strs(ks),
                str_views(r@) == ks.take(i as int),
            decreases self.entries.len() - i,
        {
            assert(ks[i as int] == self.entries@[i as int].0@);
            let k = str_to_string(self.entries[i].0.as_str());
            let ghost old_r = r@;
            let ghost kv = k@;
            r.push(k);
            assert(str_views(r@) =~= str_views(old_r).push(kv));
            assert(ks.take(i + 1) =~= ks.take(i as int).push(ks[i as int]));
            i += 1;
        }
        assert(ks.take(i as int) =~= ks);
        assert(str_views(r@).to_set() =~= self.view().dom());
        proof {
            lemma_sorted_seq_of(str_views(r@));
        }
        r
    }
}

} // verus!
