//! Paths as `/`-separated strings: components, joining, file names,
//! extensions and prefixes, with the meaning that `std::path::Path` gives
//! them on Unix for UTF-8 paths (repeated separators and `.` components
//! do not count).
use vstd::prelude::*;
use crate::text::{split_at_char, join_with, split_chars, str_chars, string_from_chars, push_all, chars_eq, sub_chars};

verus! {

/// A piece of a path that names something: not empty and not `.`.
pub open spec fn is_component(c: Seq<char>) -> bool {
    c.len() > 0 && c != seq!['.']
}

/// The path starts at the current directory: it is `.` or starts with `./`.
pub open spec fn starts_at_current_dir(p: Seq<char>) -> bool {
    p.len() >= 1 && p[0] == '.' && (p.len() == 1 || p[1] == '/')
}

/// The components of a path, in order, as `Path::components` gives them
/// (the root aside): a leading `.` is kept; every other `.` and every empty
/// piece between separators does not count.
pub open spec fn path_components(p: Seq<char>) -> Seq<Seq<char>> {
    (if starts_at_current_dir(p) {
        seq![seq!['.']]
    } else {
        Seq::<Seq<char>>::empty()
    }) + split_at_char(p, '/').filter(|c: Seq<char>| is_component(c))
}

/// The path starts at the root.
pub open spec fn is_absolute(p: Seq<char>) -> bool {
    p.len() > 0 && p[0] == '/'
}

/// `Path::join`: an absolute `b` replaces `a`; otherwise `b` goes under `a`.
pub open spec fn join_path(a: Seq<char>, b: Seq<char>) -> Seq<char> {
    if is_absolute(b) || a.len() == 0 {
        b
    } else if a[a.len() - 1] == '/' {
        a + b
    } else {
        a + seq!['/'] + b
    }
}

/// `Path::file_name`: the last component, unless it is `.` or `..`.
pub open spec fn file_name(p: Seq<char>) -> Option<Seq<char>> {
    let cs = path_components(p);
    if cs.len() > 0 && cs.last() != seq!['.', '.'] && cs.last() != seq!['.'] {
        Some(cs.last())
    } else {
        None
    }
}

/// The last position holding `c`, or `-1`.
pub open spec fn last_char_pos(s: Seq<char>, c: char) -> int
    decreases s.len(),
{
    if s.len() == 0 {
        -1
    } else if s.last() == c {
        s.len() - 1
    } else {
        last_char_pos(s.drop_last(), c)
    }
}

/// `Path::extension`: what follows the last `.` of the file name, unless
/// that `.` is the name's first character or there is none.
pub open spec fn extension(p: Seq<char>) -> Option<Seq<char>> {
    match file_name(p) {
        Some(n) => if last_char_pos(n, '.') > 0 {
            Some(n.skip(last_char_pos(n, '.') + 1))
        } else {
            None
        },
        None => None,
    }
}

/// `Path::strip_prefix`, as components: when `base` is a prefix of `p`
/// component by component (both absolute or both relative), the components
/// of `p` that follow.
pub open spec fn strip_prefix(p: Seq<char>, base: Seq<char>) -> Option<Seq<Seq<char>>> {
    let cp = path_components(p);
    let cb = path_components(base);
    if is_absolute(p) == is_absolute(base) && cb.len() <= cp.len() && cp.take(cb.len() as int) == cb {
        Some(cp.skip(cb.len() as int))
    } else {
        None
    }
}

/// The components of `p`.
pub fn components(p: &str) -> (r: Vec<Vec<char>>)
    ensures
        r@.map_values(|c: Vec<char>| c@) == path_components(p@),
{
    let v = str_chars(p);
    let pieces = split_chars(&v, '/');
    let ghost views = pieces@.map_values(|w: Vec<char>| w@);
    let mut r: Vec<Vec<char>> = Vec::new();
    let mut i: usize = 0;
    let dot: Vec<char> = vec!['.'];
    let lead_dot = v.len() >= 1 && v[0] == '.' && (v.len() == 1 || v[1] == '/');
    assert(lead_dot == starts_at_current_dir(p@));
    if lead_dot {
        let d: Vec<char> = vec!['.'];
        assert(d@ =~= seq!['.']);
        r.push(d);
    }
    let ghost lead = r@.map_values(|c: Vec<char>| c@);
    assert(lead =~= (if starts_at_current_dir(p@) {
        seq![seq!['.']]
    } else {
        Seq::<Seq<char>>::empty()
    }));
    assert(views.take(0) =~= Seq::<Seq<char>>::empty());
    assert(r@.map_values(|c: Vec<char>| c@) =~= lead + views.take(0).filter(|c: Seq<char>| is_component(c))) by {
        reveal(Seq::filter);
    }
    while i < pieces.len()
        invariant
            views == pieces@.map_values(|w: Vec<char>| w@),
            views == split_at_char(p@, '/'),
            dot@ == seq!['.'],
            0 <= i <= pieces.len(),
            lead == (if starts_at_current_dir(p@) {
                seq![seq!['.']]
            } else {
                Seq::<Seq<char>>::empty()
            }),
            r@.map_values(|c: Vec<char>| c@) == lead + views.take(i as int).filter(|c: Seq<char>| is_component(c)),
        decreases pieces.len() - i,
    {
        let ghost before = r@.map_values(|c: Vec<char>| c@);
        proof {
            reveal(Seq::filter);
        }
        assert(views.take(i + 1).drop_last() =~= views.take(i as int));
        assert(views.take(i + 1).last() == pieces[i as int]@);
        if pieces[i].len() > 0 && !chars_eq(&pieces[i], &dot) {
            let piece = sub_chars(&pieces[i], 0, pieces[i].len());
            assert(piece@ =~= pieces[i as int]@);
            r.push(piece);
            assert(r@.map_values(|c: Vec<char>| c@) =~= before.push(pieces[i as int]@));
            assert(lead + views.take(i + 1).filter(|c: Seq<char>| is_component(c)) =~= (lead + views.take(
                i as int,
            ).filter(|c: Seq<char>| is_component(c))).push(pieces[i as int]@));
        }
        i += 1;
    }
    assert(views.take(i as int) =~= views);
    r
}

/// Joins `b` to `a` as `Path::join` does.
pub fn join(a: &str, b: &str) -> (r: String)
    ensures
        r@ == join_path(a@, b@),
{
    let av = str_chars(a);
    let bv = str_chars(b);
    if (bv.len() > 0 && bv[0] == '/') || av.len() == 0 {
        return string_from_chars(bv.as_slice());
    }
    let mut out = sub_chars(&av, 0, av.len());
    assert(out@ =~= a@);
    if av[av.len() - 1] != '/' {
        out.push('/');
    }
    push_all(&mut out, &bv);
    string_from_chars(out.as_slice())
}

/// The last position of `c` in `s`, if any.
pub fn last_pos(s: &Vec<char>, c: char) -> (r: Option<usize>)
    ensures
        match r {
            Some(i) => i as int == last_char_pos(s@, c) && i < s.len() && s@[i as int] == c,
            None => last_char_pos(s@, c) == -1,
        },
{
    let mut i = s.len();
    assert(s@.take(i as int) =~= s@);
    while i > 0
        invariant
            0 <= i <= s.len(),
            forall|j: int| i <= j < s.len() ==> s@[j] != c,
            last_char_pos(s@, c) == last_char_pos(s@.take(i as int), c),
        decreases i,
    {
        assert(s@.take(i as int).drop_last() =~= s@.take(i - 1));
        assert(s@.take(i as int).last() == s@[i - 1]);
        if s[i - 1] == c {
            return Some(i - 1);
        }
        i -= 1;
    }
    assert(s@.take(0) =~= Seq::<char>::empty());
    None
}

/// The file name of `p`.
pub fn path_file_name(p: &str) -> (r: Option<String>)
    ensures
        match r {
            Some(n) => file_name(p@) == Some(n@),
            None => file_name(p@) is None,
        },
{
    let cs = components(p);
    let ghost views = cs@.map_values(|c: Vec<char>| c@);
    if cs.len() == 0 {
        return None;
    }
    let last = &cs[cs.len() - 1];
    assert(views.last() == last@);
    let dotdot: Vec<char> = vec!['.', '.'];
    let dot: Vec<char> = vec!['.'];
    assert(dotdot@ =~= seq!['.', '.']);
    assert(dot@ =~= seq!['.']);
    if chars_eq(last, &dotdot) || chars_eq(last, &dot) {
        return None;
    }
    Some(string_from_chars(last.as_slice()))
}

/// The extension of `p`.
pub fn path_extension(p: &str) -> (r: Option<String>)
    ensures
        match r {
            Some(e) => extension(p@) == Some(e@),
            None => extension(p@) is None,
        },
{
    match path_file_name(p) {
        Some(n) => {
            let nv = str_chars(n.as_str());
            match last_pos(&nv, '.') {
                Some(d) => if d > 0 {
                    let e = sub_chars(&nv, d + 1, nv.len());
                    assert(e@ == n@.skip(d + 1));
                    Some(string_from_chars(e.as_slice()))
                } else {
                    None
                },
                None => None,
            }
        },
        None => None,
    }
}

/// The components of `p` after the prefix `base`, if `base` is one.
pub fn strip_path_prefix(p: &str, base: &str) -> (r: Option<Vec<Vec<char>>>)
    ensures
        match r {
            Some(rest) => strip_prefix(p@, base@) == Some(rest@.map_values(|c: Vec<char>| c@)),
            None => strip_prefix(p@, base@) is None,
        },
{
    let pv = str_chars(p);
    let bv = str_chars(base);
    let p_abs = pv.len() > 0 && pv[0] == '/';
    let b_abs = bv.len() > 0 && bv[0] == '/';
    let cp = components(p);
    let cb = components(base);
    let ghost vp = cp@.map_values(|c: Vec<char>| c@);
    let ghost vb = cb@.map_values(|c: Vec<char>| c@);
    if p_abs != b_abs || cb.len() > cp.len() {
        return None;
    }
    let mut i: usize = 0;
    while i < cb.len()
        invariant
            0 <= i <= cb.len() <= cp.len(),
            vp == path_components(p@),
            vb == path_components(base@),
            is_absolute(p@) == is_absolute(base@),
            vp == cp@.map_values(|c: Vec<char>| c@),
            vb == cb@.map_values(|c: Vec<char>| c@),
            forall|j: int| 0 <= j < i ==> vp[j] == vb[j],
        decreases cb.len() - i,
    {
        if !chars_eq(&cp[i], &cb[i]) {
            assert(vp.take(vb.len() as int)[i as int] != vb[i as int]);
            assert(vp.take(vb.len() as int) != vb);
            return None;
        }
        i += 1;
    }
    assert(vp.take(vb.len() as int) =~= vb);
    let mut rest: Vec<Vec<char>> = Vec::new();
    let mut k = cb.len();
    while k < cp.len()
        invariant
            cb.len() <= k <= cp.len(),
            vp == cp@.map_values(|c: Vec<char>| c@),
            rest@.map_values(|c: Vec<char>| c@) == vp.subrange(cb.len() as int, k as int),
        decreases cp.len() - k,
    {
        let c = sub_chars(&cp[k], 0, cp[k].len());
        assert(c@ =~= cp@[k as int]@);
        assert(vp[k as int] == cp@[k as int]@);
        let ghost before = rest@.map_values(|c: Vec<char>| c@);
        rest.push(c);
        assert(rest@.map_values(|c: Vec<char>| c@) =~= before.push(vp[k as int]));
        assert(vp.subrange(cb.len() as int, k + 1) =~= vp.subrange(cb.len() as int, k as int).push(vp[k as int]));
        k += 1;
    }
    assert(vp.subrange(cb.len() as int, cp.len() as int) =~= vp.skip(vb.len() as int));
    Some(rest)
}

/// The components joined with `/` into a relative path.
pub fn join_components(cs: &Vec<Vec<char>>) -> (r: String)
    ensures
        r@ == join_with(cs@.map_values(|c: Vec<char>| c@), '/'),
{
    let ghost views = cs@.map_values(|c: Vec<char>| c@);
    let mut out: Vec<char> = Vec::new();
    let mut i: usize = 0;
    assert(views.take(0) =~= Seq::<Seq<char>>::empty());
    while i < cs.len()
        invariant
            0 <= i <= cs.len(),
            views == cs@.map_values(|c: Vec<char>| c@),
            out@ == join_with(views.take(i as int), '/'),
        decreases cs.len() - i,
    {
        assert(views.take(i + 1).drop_last() =~= views.take(i as int));
        assert(views.take(i + 1).last() == cs[i as int]@);
        if i > 0 {
            out.push('/');
        }
        push_all(&mut out, &cs[i]);
        i += 1;
        proof {
            if i == 1 {
                assert(out@ =~= views.take(1)[0]);
            }
        }
    }
    assert(views.take(i as int) =~= views);
    string_from_chars(out.as_slice())
}

// ---------------------------------------------------------------------
// Laws of file names and extensions.
// ---------------------------------------------------------------------

/// Splitting `x + y`, where `y` holds no `/`, extends the last piece of `x`
/// by `y`.
proof fn lemma_split_append(x: Seq<char>, y: Seq<char>)
    requires
        !y.contains('/'),
    ensures
        split_at_char(x, '/').len() >= 1,
        split_at_char(x + y, '/') == split_at_char(x, '/').update(
            split_at_char(x, '/').len() - 1,
            split_at_char(x, '/').last() + y,
        ),
    decreases y.len(),
{
    reveal_with_fuel(split_at_char, 2);
    if x.len() > 0 {
        lemma_split_len(x.drop_last());
    }
    if y.len() == 0 {
        assert(x + y =~= x);
        let p = split_at_char(x, '/');
        assert(p.update(p.len() - 1, p.last() + y) =~= p);
    } else {
        let yi = y.drop_last();
        let c = y.last();
        assert(!yi.contains('/')) by {
            if yi.contains('/') {
                let j = choose|j: int| 0 <= j < yi.len() && yi[j] == '/';
                assert(y[j] == '/');
            }
        }
        assert(c != '/') by {
            if c == '/' {
                assert(y[y.len() - 1] == '/');
            }
        }
        lemma_split_append(x, yi);
        assert((x + y).drop_last() =~= x + yi);
        assert((x + y).last() == c);
        let p = split_at_char(x, '/');
        let q = split_at_char(x + yi, '/');
        assert(q.len() == p.len());
        assert(split_at_char(x + y, '/') == q.update(q.len() - 1, q.last().push(c)));
        assert(q.last() == p.last() + yi);
        assert((p.last() + yi).push(c) =~= p.last() + y);
        assert(q.update(q.len() - 1, q.last().push(c)) =~= p.update(p.len() - 1, p.last() + y));
    }
}

/// A split has at least one piece.
proof fn lemma_split_len(x: Seq<char>)
    ensures
        split_at_char(x, '/').len() >= 1,
    decreases x.len(),
{
    if x.len() > 0 {
        lemma_split_len(x.drop_last());
    }
}

/// The last piece of the split of a text that ends with `/` is empty.
proof fn lemma_split_after_sep(x: Seq<char>)
    requires
        x.len() > 0,
        x.last() == '/',
    ensures
        split_at_char(x, '/').len() >= 1,
        split_at_char(x, '/').last() == Seq::<char>::empty(),
{
    lemma_split_len(x.drop_last());
}

/// Law: the file name of `name` joined under a directory is `name`, for a
/// name without `/` that is neither empty, `.` nor `..`.
pub proof fn law_file_name_of_join(dir: Seq<char>, name: Seq<char>)
    requires
        !name.contains('/'),
        name.len() > 0,
        name != seq!['.'],
        name != seq!['.', '.'],
    ensures
        file_name(join_path(dir, name)) == Some(name),
{
    broadcast use Seq::filter_distributes_over_add;
    reveal(Seq::filter);
    let j = join_path(dir, name);
    assert(!is_absolute(name)) by {
        if is_absolute(name) {
            assert(name[0] == '/');
            assert(name.contains(name[0]));
        }
    }
    let x = if dir.len() == 0 {
        Seq::<char>::empty()
    } else if dir[dir.len() - 1] == '/' {
        dir
    } else {
        dir + seq!['/']
    };
    assert(j == x + name);
    lemma_split_append(x, name);
    let p = split_at_char(x, '/');
    if x.len() > 0 {
        assert(x.last() == '/');
        lemma_split_after_sep(x);
    } else {
        assert(p == seq![Seq::<char>::empty()]);
    }
    assert(p.last() + name =~= name);
    let q = split_at_char(j, '/');
    assert(q =~= p.drop_last().push(name));
    let f = |c: Seq<char>| is_component(c);
    assert(p.drop_last().push(name) =~= p.drop_last() + seq![name]);
    assert(seq![name].drop_last() =~= Seq::<Seq<char>>::empty());
    assert(seq![name].filter(f) =~= seq![name]);
    assert(q.filter(f) == p.drop_last().filter(f) + seq![name].filter(f));
    let lead = if starts_at_current_dir(j) {
        seq![seq!['.']]
    } else {
        Seq::<Seq<char>>::empty()
    };
    let cs = path_components(j);
    assert(cs == lead + (p.drop_last().filter(f) + seq![name]));
    assert(cs.last() == name);
}

/// The last position holding `c` holds it, and none after it does; `-1`
/// when no position holds it.
proof fn lemma_last_char_pos(s: Seq<char>, c: char)
    ensures
        -1 <= last_char_pos(s, c) < s.len(),
        last_char_pos(s, c) >= 0 ==> s[last_char_pos(s, c)] == c,
        forall|j: int| last_char_pos(s, c) < j < s.len() ==> s[j] != c,
    decreases s.len(),
{
    if s.len() > 0 && s.last() != c {
        lemma_last_char_pos(s.drop_last(), c);
        assert forall|j: int| last_char_pos(s, c) < j < s.len() implies s[j] != c by {
            if j < s.len() - 1 {
                assert(s[j] == s.drop_last()[j]);
            }
        }
    }
}

/// Law: a path has an extension exactly when its file name has a `.` that
/// is not its first character; the extension is what follows the last such
/// `.`, and holds no `.`.
pub proof fn law_extension_follows_last_dot(p: Seq<char>)
    ensures
        extension(p) is Some <==> (file_name(p) is Some && exists|i: int|
            0 < i < file_name(p)->0.len() && #[trigger] file_name(p)->0[i] == '.'),
        extension(p) is Some ==> {
            let n = file_name(p)->0;
            let e = extension(p)->0;
            &&& e.len() < n.len()
            &&& n[n.len() - e.len() - 1] == '.'
            &&& n.skip(n.len() - e.len()) == e
            &&& !e.contains('.')
        },
{
    match file_name(p) {
        Some(n) => {
            lemma_last_char_pos(n, '.');
            let k = last_char_pos(n, '.');
            if exists|i: int| 0 < i < n.len() && #[trigger] n[i] == '.' {
                let i = choose|i: int| 0 < i < n.len() && #[trigger] n[i] == '.';
                assert(k >= i);
            }
            if k > 0 {
                let e = n.skip(k + 1);
                assert(n[k] == '.');
                assert(n.skip(n.len() - e.len()) =~= e);
                assert(!e.contains('.')) by {
                    if e.contains('.') {
                        let j = choose|j: int| 0 <= j < e.len() && e[j] == '.';
                        assert(n[k + 1 + j] == '.');
                    }
                }
            }
        },
        None => {},
    }
}

} // verus!
