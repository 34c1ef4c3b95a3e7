//! The file system seen by the converter: a trait for reading and writing
//! files, an in-memory implementation, and the ignore patterns that filter
//! what a directory walk yields.
use vstd::prelude::*;
use crate::text::{
    starts_with, ends_with, contains, occurs_at, str_chars, chars_starts_with, chars_ends_with, chars_contains,
    chars_eq, sub_chars, str_eq, str_to_string, string_from_chars,
};
use crate::path::{is_absolute, path_components, strip_prefix, components, strip_path_prefix};

verus! {

/// Whether `name` matches an ignore `pattern`. Patterns support `*` (every
/// name), `*middle*` (contains), `*suffix` (ends with), `prefix*` (starts
/// with), and otherwise an exact name.
pub open spec fn glob_matches(name: Seq<char>, pattern: Seq<char>) -> bool {
    if pattern == seq!['*'] {
        true
    } else if pattern.len() >= 2 && pattern[0] == '*' && pattern[pattern.len() - 1] == '*' {
        contains(name, pattern.subrange(1, pattern.len() - 1))
    } else if pattern.len() >= 1 && pattern[0] == '*' {
        ends_with(name, pattern.skip(1))
    } else if pattern.len() >= 1 && pattern[pattern.len() - 1] == '*' {
        starts_with(name, pattern.take(pattern.len() - 1))
    } else {
        name == pattern
    }
}

/// Simple pattern matching with wildcards at the ends of the pattern:
/// `".*"` (starts with a dot), `"*suffix"`, `"prefix*"`, `"*middle*"`.
pub fn matches_pattern(name: &str, pattern: &str) -> (r: bool)
    ensures
        r == glob_matches(name@, pattern@),
{
    let n = str_chars(name);
    let p = str_chars(pattern);
    let len = p.len();
    if len == 1 && p[0] == '*' {
        assert(p@ =~= seq!['*']);
        return true;
    }
    assert(p@ != seq!['*']) by {
        if p@ == seq!['*'] {
            assert(p@.len() == 1 && p@[0] == '*');
        }
    }
    if len >= 2 && p[0] == '*' && p[len - 1] == '*' {
        let middle = sub_chars(&p, 1, len - 1);
        return chars_contains(&n, &middle);
    }
    if len >= 1 && p[0] == '*' {
        let suffix = sub_chars(&p, 1, len);
        assert(suffix@ == p@.skip(1));
        return chars_ends_with(&n, &suffix);
    }
    if len >= 1 && p[len - 1] == '*' {
        let prefix = sub_chars(&p, 0, len - 1);
        assert(prefix@ == p@.take(len - 1));
        return chars_starts_with(&n, &prefix);
    }
    chars_eq(&n, &p)
}

/// Law: the pattern `.*` matches exactly the names that start with a dot,
/// so by default dotfiles and dot-directories are ignored.
pub proof fn law_dot_pattern_matches_dotfiles(name: Seq<char>)
    ensures
        glob_matches(name, seq!['.', '*']) == (name.len() > 0 && name[0] == '.'),
{
    let pattern = seq!['.', '*'];
    assert(pattern != seq!['*']) by {
        assert(pattern.len() != 1);
    }
    assert(pattern[0] == '.' && pattern[1] == '*' && pattern.len() == 2);
    assert(pattern.take(1) =~= seq!['.']);
    assert(glob_matches(name, pattern) == starts_with(name, seq!['.']));
    if name.len() > 0 && name[0] == '.' {
        assert(name.take(1) =~= seq!['.']);
    }
    if starts_with(name, seq!['.']) {
        assert(name.take(1)[0] == name[0]);
    }
}

/// Law: a pattern without `*` matches exactly the name equal to it.
pub proof fn law_exact_pattern_matches_only_itself(name: Seq<char>, pattern: Seq<char>)
    requires
        !pattern.contains('*'),
    ensures
        glob_matches(name, pattern) <==> name == pattern,
{
    if pattern.len() >= 1 {
        assert(pattern[0] != '*') by {
            if pattern[0] == '*' {
                assert(pattern.contains(pattern[0]));
            }
        }
        assert(pattern[pattern.len() - 1] != '*') by {
            if pattern[pattern.len() - 1] == '*' {
                assert(pattern.contains(pattern[pattern.len() - 1]));
            }
        }
    }
    assert(pattern != seq!['*']) by {
        if pattern == seq!['*'] {
            assert(pattern[0] == '*');
            assert(pattern.contains(pattern[0]));
        }
    }
}

/// Law: a pattern that neither starts nor ends with `*` (a `*` inside it
/// is an ordinary character) matches exactly the name equal to it.
pub proof fn law_pattern_without_outer_star_is_exact(name: Seq<char>, pattern: Seq<char>)
    requires
        pattern.len() == 0 || (pattern[0] != '*' && pattern[pattern.len() - 1] != '*'),
    ensures
        glob_matches(name, pattern) <==> name == pattern,
{
    assert(pattern != seq!['*']) by {
        if pattern == seq!['*'] {
            assert(pattern[0] == '*');
        }
    }
}

/// Law: the pattern `*` matches every name.
pub proof fn law_star_matches_every_name(name: Seq<char>)
    ensures
        glob_matches(name, seq!['*']),
{
}

/// Law: `prefix*`, for a prefix without `*`, matches exactly the names
/// whose first characters are the prefix.
pub proof fn law_prefix_pattern(name: Seq<char>, prefix: Seq<char>)
    requires
        !prefix.contains('*'),
    ensures
        glob_matches(name, prefix.push('*')) <==> (prefix.len() <= name.len() && forall|i: int|
            0 <= i < prefix.len() ==> #[trigger] name[i] == prefix[i]),
{
    let pattern = prefix.push('*');
    assert(pattern[pattern.len() - 1] == '*');
    assert(pattern.take(pattern.len() - 1) =~= prefix);
    if prefix.len() == 0 {
        assert(pattern =~= seq!['*']);
    } else {
        assert(pattern[0] == prefix[0]);
        assert(prefix[0] != '*') by {
            if prefix[0] == '*' {
                assert(prefix.contains(prefix[0]));
            }
        }
        assert(pattern != seq!['*']) by {
            if pattern == seq!['*'] {
                assert(pattern.len() == 1);
            }
        }
    }
    if prefix.len() <= name.len() && forall|i: int| 0 <= i < prefix.len() ==> #[trigger] name[i] == prefix[i] {
        assert(name.take(prefix.len() as int) =~= prefix);
    }
    if starts_with(name, prefix) {
        assert forall|i: int| 0 <= i < prefix.len() implies #[trigger] name[i] == prefix[i] by {
            assert(name.take(prefix.len() as int)[i] == name[i]);
        }
    }
}

/// Law: `*suffix`, for a suffix without `*`, matches exactly the names
/// whose last characters are the suffix.
pub proof fn law_suffix_pattern(name: Seq<char>, suffix: Seq<char>)
    requires
        !suffix.contains('*'),
    ensures
        glob_matches(name, seq!['*'] + suffix) <==> (suffix.len() <= name.len() && forall|i: int|
            0 <= i < suffix.len() ==> #[trigger] name[name.len() - suffix.len() + i] == suffix[i]),
{
    let pattern = seq!['*'] + suffix;
    assert(pattern[0] == '*');
    assert(pattern.skip(1) =~= suffix);
    if suffix.len() == 0 {
        assert(pattern =~= seq!['*']);
    } else {
        assert(pattern[pattern.len() - 1] == suffix[suffix.len() - 1]);
        assert(suffix[suffix.len() - 1] != '*') by {
            if suffix[suffix.len() - 1] == '*' {
                assert(suffix.contains(suffix[suffix.len() - 1]));
            }
        }
        assert(pattern != seq!['*']) by {
            if pattern == seq!['*'] {
                assert(pattern.len() == 1);
            }
        }
    }
    let k = name.len() - suffix.len();
    if suffix.len() <= name.len() && forall|i: int| 0 <= i < suffix.len() ==> #[trigger] name[name.len() - suffix.len() + i] == suffix[i] {
        assert forall|i: int| 0 <= i < suffix.len() implies name.skip(k)[i] == suffix[i] by {
            assert(name[name.len() - suffix.len() + i] == suffix[i]);
        }
        assert(name.skip(k) =~= suffix);
    }
    if ends_with(name, suffix) {
        assert forall|i: int| 0 <= i < suffix.len() implies #[trigger] name[name.len() - suffix.len() + i] == suffix[i] by {
            assert(name.skip(k)[i] == name[k + i]);
        }
    }
}

/// Law: `*middle*`, for a middle without `*`, matches exactly the names in
/// which the middle occurs somewhere.
pub proof fn law_contains_pattern(name: Seq<char>, middle: Seq<char>)
    requires
        !middle.contains('*'),
    ensures
        glob_matches(name, seq!['*'] + middle.push('*')) <==> exists|k: int|
            0 <= k && k + middle.len() <= name.len() && #[trigger] name.subrange(k, k + middle.len()) == middle,
{
    let pattern = seq!['*'] + middle.push('*');
    assert(pattern.len() >= 2 && pattern[0] == '*' && pattern[pattern.len() - 1] == '*');
    assert(pattern.subrange(1, pattern.len() - 1) =~= middle);
    assert(pattern != seq!['*']) by {
        if pattern == seq!['*'] {
            assert(pattern.len() == 1);
        }
    }
    if exists|k: int| 0 <= k && k + middle.len() <= name.len() && #[trigger] name.subrange(k, k + middle.len()) == middle {
        let k = choose|k: int| 0 <= k && k + middle.len() <= name.len() && #[trigger] name.subrange(k, k + middle.len()) == middle;
        assert(occurs_at(name, middle, k));
    }
    if contains(name, middle) {
        let k = choose|k: int| occurs_at(name, middle, k);
        assert(name.subrange(k, k + middle.len()) == middle);
    }
}

/// Some pattern in `patterns` matches `name`.
pub open spec fn ignored_by(name: Seq<char>, patterns: Seq<String>) -> bool {
    exists|i: int| 0 <= i < patterns.len() && glob_matches(name, #[trigger] patterns[i]@)
}

/// Whether some pattern in `patterns` matches `name`.
pub fn is_ignored(name: &str, patterns: &[String]) -> (r: bool)
    ensures
        r == ignored_by(name@, patterns@),
{
    let mut i: usize = 0;
    while i < patterns.len()
        invariant
            0 <= i <= patterns@.len(),
            forall|j: int| 0 <= j < i ==> !glob_matches(name@, #[trigger] patterns@[j]@),
        decreases patterns@.len() - i,
    {
        if matches_pattern(name, patterns[i].as_str()) {
            return true;
        }
        i += 1;
    }
    false
}

/// Whether a directory walk enters an entry named `name`: the special
/// directories `.` and `..` given as the directory to walk are always
/// entered; any other entry is skipped when an ignore pattern matches its
/// name.
pub fn should_include_entry(name: &str, is_root: bool, patterns: &[String]) -> (r: bool)
    ensures
        r == ((is_root && (name@ == seq!['.'] || name@ == seq!['.', '.'])) || !ignored_by(name@, patterns@)),
{
    let n = str_chars(name);
    let dot: Vec<char> = vec!['.'];
    let dotdot: Vec<char> = vec!['.', '.'];
    assert(dot@ =~= seq!['.']);
    assert(dotdot@ =~= seq!['.', '.']);
    if is_root && (chars_eq(&n, &dot) || chars_eq(&n, &dotdot)) {
        return true;
    }
    !is_ignored(name, patterns)
}

/// Errors of the converter and of file systems.
#[derive(Debug)]
pub enum WikiError {
    /// A file to read does not exist.
    NotFound(String),
    /// A file found under the input directory does not lie under it.
    NotUnderInput(String),
    /// Any other failure of the file system.
    Io(String),
}

/// File system operations, so that the converter can run on the real file
/// system or on an in-memory one. Paths are `/`-separated strings. An
/// implementation that keeps its files in a model (`models_files`) says
/// through the contracts what each operation does to them when it
/// succeeds; of any other implementation nothing is stated. The real file
/// system is such an other one: what lies on disk, and what other processes
/// do to it meanwhile, is no value that a contract here could hold.
pub trait FileSystem {
    /// Whether `files` is what the implementation holds.
    open spec fn models_files(&self) -> bool {
        false
    }

    /// The regular files: contents by path.
    open spec fn files(&self) -> Map<Seq<char>, Seq<char>> {
        Map::<Seq<char>, Seq<char>>::empty()
    }

    /// Read a file to a string.
    fn read_to_string(&self, path: &str) -> (r: Result<String, WikiError>)
        ensures
            self.models_files() ==> (r matches Ok(c) ==> self.files().contains_key(path@) && self.files()[path@] == c@),
            self.models_files() ==> (r is Ok <==> self.files().contains_key(path@)),
            self.models_files() ==> (r matches Err(e) ==> e is NotFound || e is Io),
    ;

    /// Write a string to a file.
    fn write(&mut self, path: &str, contents: &str) -> (r: Result<(), WikiError>)
        ensures
            final(self).models_files() == old(self).models_files(),
            old(self).models_files() ==> (r is Ok && final(self).files() == old(self).files().insert(path@, contents@)),
    ;

    /// Create a directory and all parent directories if they don't exist.
    fn create_dir_all(&mut self, path: &str) -> (r: Result<(), WikiError>)
        ensures
            final(self).models_files() == old(self).models_files(),
            old(self).models_files() ==> (r is Ok && final(self).files() == old(self).files()),
    ;

    /// Copy a file from source to destination.
    fn copy(&mut self, from: &str, to: &str) -> (r: Result<(), WikiError>)
        ensures
            final(self).models_files() == old(self).models_files(),
            old(self).models_files() ==> (r is Ok ==> {
                &&& old(self).files().contains_key(from@)
                &&& final(self).files() == old(self).files().insert(to@, old(self).files()[from@])
            }),
            old(self).models_files() ==> (r is Ok <==> old(self).files().contains_key(from@)),
            old(self).models_files() ==> (r matches Err(e) ==> e is NotFound || e is Io),
    ;

    /// Check if a path exists.
    fn path_exists(&self, path: &str) -> (r: bool)
        ensures
            self.models_files() ==> (r == self.files().contains_key(path@)),
    ;

    /// Walk a directory and return all file paths, leaving out what an
    /// ignore pattern matches: each file that `walk_yields`, once.
    fn walk_dir(&self, path: &str, ignore_patterns: &[String]) -> (r: Result<Vec<String>, WikiError>)
        ensures
            self.models_files() ==> (r matches Ok(ps) ==> {
                &&& ps@.map_values(|p: String| p@).no_duplicates()
                &&& ps@.map_values(|p: String| p@).to_set() == walked(self.files(), path@, ignore_patterns@)
            }),
            self.models_files() ==> r is Ok,
    ;
}

/// The paths of a list of files.
pub open spec fn paths_of(files: Seq<(String, String)>) -> Seq<Seq<char>> {
    files.map_values(|f: (String, String)| f.0@)
}

/// A position of the file at `path`.
pub open spec fn path_index(files: Seq<(String, String)>, path: Seq<char>) -> int {
    choose|i: int| 0 <= i < files.len() && paths_of(files)[i] == path
}

/// The contents of each file by path.
pub open spec fn contents_of(files: Seq<(String, String)>) -> Map<Seq<char>, Seq<char>> {
    Map::new(|p: Seq<char>| paths_of(files).contains(p), |p: Seq<char>| files[path_index(files, p)].1@)
}

/// The components a directory walk checks against the ignore patterns: the
/// root `/` of an absolute path, then its named components.
pub open spec fn walk_components(p: Seq<char>) -> Seq<Seq<char>> {
    (if is_absolute(p) {
        seq![seq!['/']]
    } else {
        seq![]
    }) + path_components(p)
}

/// A walk of `base` yields `path`: it lies under `base`, and no pattern
/// matches any of its components.
pub open spec fn walk_yields(path: Seq<char>, base: Seq<char>, patterns: Seq<String>) -> bool {
    &&& strip_prefix(path, base) is Some
    &&& forall|i: int| 0 <= i < walk_components(path).len() ==> !ignored_by(#[trigger] walk_components(path)[i], patterns)
}

/// The files that a walk of `base` yields.
pub open spec fn walked(files: Map<Seq<char>, Seq<char>>, base: Seq<char>, patterns: Seq<String>) -> Set<Seq<char>> {
    files.dom().filter(|p: Seq<char>| walk_yields(p, base, patterns))
}

/// What `filter` keeps: the elements that meet the predicate, without
/// duplicates when the sequence has none.
pub proof fn lemma_filter_keeps(s: Seq<Seq<char>>, pred: spec_fn(Seq<char>) -> bool)
    ensures
        forall|x: Seq<char>| #[trigger] s.filter(pred).contains(x) == (s.contains(x) && pred(x)),
        s.no_duplicates() ==> s.filter(pred).no_duplicates(),
    decreases s.len(),
{
    reveal(Seq::filter);
    if s.len() > 0 {
        let init = s.drop_last();
        lemma_filter_keeps(init, pred);
        assert forall|x: Seq<char>| #[trigger] s.contains(x) == (init.contains(x) || x == s.last()) by {
            if s.contains(x) {
                let i = choose|i: int| 0 <= i < s.len() && s[i] == x;
                if i < init.len() {
                    assert(init[i] == x);
                }
            }
            if init.contains(x) {
                let i = choose|i: int| 0 <= i < init.len() && init[i] == x;
                assert(s[i] == x);
            }
            if x == s.last() {
                assert(s[s.len() - 1] == x);
            }
        }
        let f = s.filter(pred);
        let fi = init.filter(pred);
        if pred(s.last()) {
            assert(f == fi.push(s.last()));
            assert forall|x: Seq<char>| #[trigger] f.contains(x) == (fi.contains(x) || x == s.last()) by {
                if f.contains(x) {
                    let i = choose|i: int| 0 <= i < f.len() && f[i] == x;
                    if i < fi.len() {
                        assert(fi[i] == x);
                    }
                }
                if fi.contains(x) {
                    let i = choose|i: int| 0 <= i < fi.len() && fi[i] == x;
                    assert(f[i] == x);
                }
                if x == s.last() {
                    assert(f[f.len() - 1] == x);
                }
            }
            if s.no_duplicates() {
                assert(init.no_duplicates()) by {
                    assert forall|a: int, b: int| 0 <= a < b < init.len() implies init[a] != init[b] by {
                        assert(init[a] == s[a] && init[b] == s[b]);
                    }
                }
                assert(!init.contains(s.last())) by {
                    if init.contains(s.last()) {
                        let i = choose|i: int| 0 <= i < init.len() && init[i] == s.last();
                        assert(s[i] == s[s.len() - 1]);
                    }
                }
                assert forall|a: int, b: int| 0 <= a < b < f.len() implies f[a] != f[b] by {
                    if b == f.len() - 1 {
                        assert(fi.contains(f[a])) by {
                            assert(fi[a] == f[a]);
                        }
                    } else {
                        assert(fi[a] == f[a] && fi[b] == f[b]);
                    }
                }
            }
        } else {
            assert(f == fi);
            if s.no_duplicates() {
                assert(init.no_duplicates()) by {
                    assert forall|a: int, b: int| 0 <= a < b < init.len() implies init[a] != init[b] by {
                        assert(init[a] == s[a] && init[b] == s[b]);
                    }
                }
            }
        }
    }
}

/// Mock file system for testing: files in memory, in the order in which
/// they were first added.
pub struct MockFileSystem {
    files: Vec<(String, String)>,
}

impl View for MockFileSystem {
    type V = Map<Seq<char>, Seq<char>>;
    /// The contents of each file by path.
    closed spec fn view(&self) -> Map<Seq<char>, Seq<char>> {
        contents_of(self.files@)
    }
}

impl MockFileSystem {
    #[verifier::type_invariant]
    closed spec fn distinct_paths(self) -> bool {
        paths_of(self.files@).no_duplicates()
    }


    /// The paths of the files, in the order in which they were first added.
    pub closed spec fn paths(self) -> Seq<Seq<char>> {
        paths_of(self.files@)
    }

    proof fn lemma_view_at(self, i: int)
        requires
            0 <= i < self.files@.len(),
            paths_of(self.files@).no_duplicates(),
        ensures
            self.view().contains_key(paths_of(self.files@)[i]),
            self.view()[paths_of(self.files@)[i]] == self.files@[i].1@,
    {
        let ps = paths_of(self.files@);
        assert(ps.contains(ps[i]));
        let j = path_index(self.files@, ps[i]);
        assert(self.view()[ps[i]] == self.files@[j].1@);
    }

    /// The paths of the files are the keys of the view.
    proof fn lemma_paths(self)
        requires
            paths_of(self.files@).no_duplicates(),
        ensures
            self.paths().no_duplicates(),
            self.paths().to_set() == self.view().dom(),
    {
        assert(self.paths().to_set() =~= self.view().dom());
    }

    /// An empty file system.
    pub fn new() -> (fs: Self)
        ensures
            fs.view() == Map::<Seq<char>, Seq<char>>::empty(),
            fs.paths() == Seq::<Seq<char>>::empty(),
            fs.view().dom().finite(),
    {
        let fs = MockFileSystem { files: Vec::new() };
        assert(fs.view() =~= Map::<Seq<char>, Seq<char>>::empty());
        assert(fs.view().dom() =~= Set::<Seq<char>>::empty());
        assert(fs.paths() =~= Seq::<Seq<char>>::empty());
        fs
    }

    /// The position of the file at `path`, if there is one.
    fn find(&self, path: &str) -> (r: Option<usize>)
        ensures
            match r {
                Some(i) => i < self.files@.len() && paths_of(self.files@)[i as int] == path@,
                None => !paths_of(self.files@).contains(path@),
            },
    {
        let mut i: usize = 0;
        while i < self.files.len()
            invariant
                0 <= i <= self.files@.len(),
                forall|j: int| 0 <= j < i ==> #[trigger] paths_of(self.files@)[j] != path@,
            decreases self.files@.len() - i,
        {
            assert(paths_of(self.files@)[i as int] == self.files@[i as int].0@);
            if str_eq(self.files[i].0.as_str(), path) {
                return Some(i);
            }
            i += 1;
        }
        None
    }

    /// Adds a file, or replaces the contents of the file at `path`.
    pub fn add_file(&mut self, path: &str, content: &str)
        ensures
            final(self).view() == old(self).view().insert(path@, content@),
            final(self).paths() == if old(self).view().contains_key(path@) {
                old(self).paths()
            } else {
                old(self).paths().push(path@)
            },
            final(self).paths().no_duplicates(),
            final(self).paths().to_set() == final(self).view().dom(),
            final(self).view().dom().finite(),
    {
        proof {
            use_type_invariant(&*self);
        }
        let ghost old_files = self.files@;
        let ghost old_view = self.view();
        let ghost old_self = *self;
        let mut files: Vec<(String, String)> = Vec::new();
        std::mem::swap(&mut files, &mut self.files);
        let entry = (str_to_string(path), str_to_string(content));
        match self.find_in(&files, path) {
            Some(i) => {
                files.set(i, entry);
                proof {
                    let nf = files@;
                    assert(paths_of(nf) =~= paths_of(old_files));
                    assert forall|p: Seq<char>| #[trigger] contents_of(nf).contains_key(p) == old_view.insert(path@, content@).contains_key(p) by {
                        if p == path@ {
                            assert(paths_of(old_files)[i as int] == p);
                        }
                    }
                    let tmp = MockFileSystem { files: files };
                    assert forall|p: Seq<char>| contents_of(nf).contains_key(p) implies #[trigger] contents_of(nf)[p] == old_view.insert(path@, content@)[p] by {
                        let j = path_index(old_files, p);
                        tmp.lemma_view_at(j);
                        old_self.lemma_view_at(j);
                    }
                    assert(contents_of(nf) =~= old_view.insert(path@, content@));
                }
                self.files = files;
            },
            None => {
                files.push(entry);
                proof {
                    let nf = files@;
                    assert(paths_of(nf) =~= paths_of(old_files).push(path@));
                    assert(paths_of(nf).no_duplicates()) by {
                        assert forall|a: int, b: int| 0 <= a < b < paths_of(nf).len() implies paths_of(nf)[a] != paths_of(nf)[b] by {
                            if b == paths_of(nf).len() - 1 {
                                assert(paths_of(old_files)[a] == paths_of(nf)[a]);
                            } else {
                                assert(paths_of(old_files)[a] == paths_of(nf)[a]);
                                assert(paths_of(old_files)[b] == paths_of(nf)[b]);
                            }
                        }
                    }
                    assert(!old_view.contains_key(path@));
                    let tmp = MockFileSystem { files: files };
                    assert forall|p: Seq<char>| #[trigger] contents_of(nf).contains_key(p) == old_view.insert(path@, content@).contains_key(p) by {
                        if p == path@ {
                            assert(paths_of(nf)[nf.len() - 1] == p);
                        } else if paths_of(old_files).contains(p) {
                            let j = choose|j: int| 0 <= j < old_files.len() && paths_of(old_files)[j] == p;
                            assert(paths_of(nf)[j] == p);
                        } else if paths_of(nf).contains(p) {
                            let j = choose|j: int| 0 <= j < nf.len() && paths_of(nf)[j] == p;
                            assert(paths_of(old_files)[j] == p);
                        }
                    }
                    assert forall|p: Seq<char>| contents_of(nf).contains_key(p) implies #[trigger] contents_of(nf)[p] == old_view.insert(path@, content@)[p] by {
                        let j = path_index(nf, p);
                        tmp.lemma_view_at(j);
                        if j < old_files.len() {
                            old_self.lemma_view_at(j);
                        }
                    }
                    assert(contents_of(nf) =~= old_view.insert(path@, content@));
                }
                self.files = files;
            },
        }
        proof {
            use_type_invariant(&*self);
            self.lemma_paths();
            vstd::seq_lib::seq_to_set_is_finite(self.paths());
        }
    }

    /// The position of the file at `path` in `files`, if there is one.
    fn find_in(&self, files: &Vec<(String, String)>, path: &str) -> (r: Option<usize>)
        ensures
            match r {
                Some(i) => i < files@.len() && paths_of(files@)[i as int] == path@,
                None => !paths_of(files@).contains(path@),
            },
    {
        let mut i: usize = 0;
        while i < files.len()
            invariant
                0 <= i <= files@.len(),
                forall|j: int| 0 <= j < i ==> #[trigger] paths_of(files@)[j] != path@,
            decreases files@.len() - i,
        {
            assert(paths_of(files@)[i as int] == files@[i as int].0@);
            if str_eq(files[i].0.as_str(), path) {
                return Some(i);
            }
            i += 1;
        }
        None
    }

    /// The contents of the file at `path`, if there is one.
    pub fn get_file(&self, path: &str) -> (r: Option<String>)
        ensures
            file_at(self.view(), path@) == match r {
                Some(c) => Some(c@),
                None => None,
            },
            match r {
                Some(c) => self.view().contains_key(path@) && self.view()[path@] == c@,
                None => !self.view().contains_key(path@),
            },
    {
        proof {
            use_type_invariant(self);
        }
        match self.find(path) {
            Some(i) => {
                proof {
                    self.lemma_view_at(i as int);
                }
                Some(str_to_string(self.files[i].1.as_str()))
            },
            None => None,
        }
    }

    /// The number of files.
    pub fn file_count(&self) -> (n: usize)
        ensures
            n == self.view().len(),
    {
        proof {
            use_type_invariant(self);
            self.lemma_paths();
            self.paths().unique_seq_to_set();
        }
        self.files.len()
    }
}

impl Default for MockFileSystem {
    /// An empty file system.
    fn default() -> (fs: Self)
        ensures
            fs.view() == Map::<Seq<char>, Seq<char>>::empty(),
            fs.paths() == Seq::<Seq<char>>::empty(),
    {
        MockFileSystem::new()
    }
}

/// What `get_file` gives for `path` on a file system holding `files`: the
/// contents of the file, or `None` where there is none.
pub open spec fn file_at(files: Map<Seq<char>, Seq<char>>, path: Seq<char>) -> Option<Seq<char>> {
    if files.contains_key(path) {
        Some(files[path])
    } else {
        None
    }
}

/// Law: after `write` (or `add_file`) of `contents` at `path` turns the
/// in-memory file system `before` into `after`, `get_file` of `path` gives
/// `contents`, and `get_file` of any other path gives what it gave before.
pub proof fn law_read_after_write(
    before: MockFileSystem,
    after: MockFileSystem,
    path: Seq<char>,
    contents: Seq<char>,
    other: Seq<char>,
)
    requires
        after@ == before@.insert(path, contents),
        other != path,
    ensures
        file_at(after@, path) == Some(contents),
        file_at(after@, other) == file_at(before@, other),
{
}

impl FileSystem for MockFileSystem {
    open spec fn models_files(&self) -> bool {
        true
    }

    open spec fn files(&self) -> Map<Seq<char>, Seq<char>> {
        self.view()
    }

    fn read_to_string(&self, path: &str) -> (r: Result<String, WikiError>)
        ensures
            match r {
                Ok(c) => self.view().contains_key(path@) && self.view()[path@] == c@,
                Err(e) => !self.view().contains_key(path@) && (e matches WikiError::NotFound(p) && p@ == path@),
            },
    {
        match self.get_file(path) {
            Some(c) => Ok(c),
            None => Err(WikiError::NotFound(str_to_string(path))),
        }
    }

    fn write(&mut self, path: &str, contents: &str) -> (r: Result<(), WikiError>)
        ensures
            r is Ok,
            final(self).view() == old(self).view().insert(path@, contents@),
    {
        self.add_file(path, contents);
        Ok(())
    }

    fn create_dir_all(&mut self, path: &str) -> (r: Result<(), WikiError>)
        ensures
            r is Ok,
            final(self).view() == old(self).view(),
            final(self).paths() == old(self).paths(),
    {
        Ok(())
    }

    fn copy(&mut self, from: &str, to: &str) -> (r: Result<(), WikiError>)
        ensures
            match r {
                Ok(()) => old(self).view().contains_key(from@) && final(self).view() == old(self).view().insert(
                    to@,
                    old(self).view()[from@],
                ),
                Err(e) => !old(self).view().contains_key(from@) && final(self).view() == old(self).view(),
            },
    {
        let content = self.read_to_string(from)?;
        self.write(to, content.as_str())
    }

    fn path_exists(&self, path: &str) -> (r: bool)
        ensures
            r == self.view().contains_key(path@),
    {
        self.get_file(path).is_some()
    }

    fn walk_dir(&self, path: &str, ignore_patterns: &[String]) -> (r: Result<Vec<String>, WikiError>)
        ensures
            match r {
                Ok(ps) => ps@.map_values(|p: String| p@) == self.paths().filter(
                    |p: Seq<char>| walk_yields(p, path@, ignore_patterns@),
                ),
                Err(_) => false,
            },
    {
        proof {
            use_type_invariant(self);
        }
        let ghost ps = self.paths();
        let ghost pred = |p: Seq<char>| walk_yields(p, path@, ignore_patterns@);
        let mut out: Vec<String> = Vec::new();
        let mut i: usize = 0;
        assert(ps.take(0).filter(pred) =~= Seq::<Seq<char>>::empty()) by {
            reveal(Seq::filter);
        }
        while i < self.files.len()
            invariant
                ps == paths_of(self.files@),
                pred == (|p: Seq<char>| walk_yields(p, path@, ignore_patterns@)),
                0 <= i <= self.files@.len(),
                out@.map_values(|p: String| p@) == ps.take(i as int).filter(pred),
                paths_of(self.files@).no_duplicates(),
                forall|k: int| 0 <= k < out@.len() ==> self.view().contains_key(#[trigger] out@[k]@),
            decreases self.files@.len() - i,
        {
            let ghost before = out@.map_values(|p: String| p@);
            proof {
                reveal(Seq::filter);
            }
            assert(ps.take(i + 1).drop_last() =~= ps.take(i as int));
            assert(ps.take(i + 1).last() == self.files@[i as int].0@);
            let p = self.files[i].0.as_str();
            assert(p@ == self.files@[i as int].0@);
            let sel = self.walk_selects(p, path, ignore_patterns);
            assert(sel == walk_yields(self.files@[i as int].0@, path@, ignore_patterns@));
            assert(pred(self.files@[i as int].0@) == sel);
            if sel {
                proof {
                    self.lemma_view_at(i as int);
                }
                out.push(str_to_string(p));
                assert(out@.map_values(|p: String| p@) =~= before.push(self.files@[i as int].0@));
            } else {
                assert(out@.map_values(|p: String| p@) == before);
            }
            i += 1;
        }
        assert(ps.take(i as int) =~= ps);
        proof {
            self.lemma_paths();
            lemma_filter_keeps(ps, pred);
            let got = out@.map_values(|p: String| p@);
            assert(got.to_set() =~= walked(self.view(), path@, ignore_patterns@)) by {
                assert forall|x: Seq<char>| got.to_set().contains(x) == walked(self.view(), path@, ignore_patterns@).contains(x) by {
                    assert(got.contains(x) == (ps.contains(x) && pred(x)));
                    assert(ps.to_set().contains(x) == ps.contains(x));
                }
            }
        }
        Ok(out)
    }
}

impl MockFileSystem {
    /// Whether a walk of `base` yields `p`.
    fn walk_selects(&self, p: &str, base: &str, patterns: &[String]) -> (r: bool)
        ensures
            r == walk_yields(p@, base@, patterns@),
    {
        match strip_path_prefix(p, base) {
            None => false,
            Some(_) => {
                let pv = str_chars(p);
                let cs = components(p);
                let ghost wc = walk_components(p@);
                let ghost views = cs@.map_values(|c: Vec<char>| c@);
                if pv.len() > 0 && pv[0] == '/' {
                    let root = "/";
                    proof {
                        reveal_strlit("/");
                    }
                    assert(wc[0] == root@);
                    if is_ignored(root, patterns) {
                        return false;
                    }
                }
                let offset: usize = if pv.len() > 0 && pv[0] == '/' { 1 } else { 0 };
                let mut i: usize = 0;
                while i < cs.len()
                    invariant
                        0 <= i <= cs.len(),
                        views == cs@.map_values(|c: Vec<char>| c@),
                        views == path_components(p@),
                        wc == walk_components(p@),
                        wc.len() == offset + views.len(),
                        forall|j: int| 0 <= j < views.len() ==> wc[offset + j] == #[trigger] views[j],
                        forall|j: int| 0 <= j < offset + i ==> !ignored_by(#[trigger] wc[j], patterns@),
                    decreases cs.len() - i,
                {
                    let name = string_from_chars(cs[i].as_slice());
                    assert(name@ == views[i as int]);
                    if is_ignored(name.as_str(), patterns) {
                        assert(wc[offset + i] == views[i as int]);
                        return false;
                    }
                    i += 1;
                }
                true
            },
        }
    }
}

} // verus!
