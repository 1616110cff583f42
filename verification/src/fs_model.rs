use vstd::prelude::*;
use crate::strings::{joined, strip_dir, contains_ch, has_suffix, is_suffix, str_eq};

verus! {

/// One file of the model: a full path and the file's text.
pub struct FsFile {
    pub path: String,
    pub contents: String,
}

/// An in-memory model of the directory tree that one grading run works
/// on: a set of directory paths and a map from file path to file text.
/// Paths are strings whose components are separated by `/`.
pub struct FsState {
    dirs: Vec<String>,
    files: Vec<FsFile>,
}

/// The failure of a directory lookup.
#[derive(Debug, PartialEq, Eq, Structural, Clone, Copy)]
pub enum FsError {
    /// The directory does not exist.
    NotFound,
}

/// The map from file path to file text that a list of file entries holds.
pub open spec fn file_map_of(s: Seq<FsFile>) -> Map<Seq<char>, Seq<char>>
    decreases s.len(),
{
    if s.len() == 0 {
        Map::empty()
    } else {
        file_map_of(s.drop_last()).insert(s.last().path@, s.last().contents@)
    }
}

/// The set of directory paths that a list of directory entries holds.
pub open spec fn dir_set_of(s: Seq<String>) -> Set<Seq<char>>
    decreases s.len(),
{
    if s.len() == 0 {
        Set::empty()
    } else {
        dir_set_of(s.drop_last()).insert(s.last()@)
    }
}

/// No two entries of the list hold the same name.
pub open spec fn distinct_names(s: Seq<Seq<char>>) -> bool {
    forall|i: int, j: int| 0 <= i < j < s.len() ==> s[i] != s[j]
}

/// A path is a key of the file map exactly when some entry holds it.
proof fn lemma_file_map_contains(s: Seq<FsFile>, p: Seq<char>)
    ensures
        file_map_of(s).contains_key(p) <==> (exists|i: int|
            0 <= i < s.len() && s[i].path@ == p),
    decreases s.len(),
{
    if s.len() > 0 {
        lemma_file_map_contains(s.drop_last(), p);
        if s.last().path@ != p {
            if exists|i: int| 0 <= i < s.len() && s[i].path@ == p {
                let i = choose|i: int| 0 <= i < s.len() && s[i].path@ == p;
                assert(s.drop_last()[i] == s[i]);
            }
            if exists|i: int| 0 <= i < s.drop_last().len() && s.drop_last()[i].path@ == p {
                let i = choose|i: int|
                    0 <= i < s.drop_last().len() && s.drop_last()[i].path@ == p;
                assert(s[i].path@ == p);
            }
        }
    }
}

/// With distinct paths, each entry's path maps to that entry's text.
proof fn lemma_file_map_index(s: Seq<FsFile>, i: int)
    requires
        0 <= i < s.len(),
        forall|a: int, b: int| 0 <= a < b < s.len() ==> s[a].path@ != s[b].path@,
    ensures
        file_map_of(s).contains_key(s[i].path@),
        file_map_of(s)[s[i].path@] == s[i].contents@,
    decreases s.len(),
{
    if i < s.len() - 1 {
        assert(s.drop_last()[i] == s[i]);
        assert(forall|a: int, b: int|
            0 <= a < b < s.drop_last().len() ==> s.drop_last()[a].path@ != s.drop_last()[b].path@);
        lemma_file_map_index(s.drop_last(), i);
        assert(s.last().path@ != s[i].path@);
    }
}

/// Replacing the entry at `i` by one with the same path updates the map
/// at that path alone.
proof fn lemma_file_map_update(s: Seq<FsFile>, i: int, f: FsFile)
    requires
        0 <= i < s.len(),
        forall|a: int, b: int| 0 <= a < b < s.len() ==> s[a].path@ != s[b].path@,
        f.path@ == s[i].path@,
    ensures
        file_map_of(s.update(i, f)) == file_map_of(s).insert(f.path@, f.contents@),
    decreases s.len(),
{
    let t = s.update(i, f);
    if i == s.len() - 1 {
        assert(t.drop_last() =~= s.drop_last());
        assert(t.last() == f);
        assert(file_map_of(s.drop_last()).insert(s.last().path@, s.last().contents@).insert(
            f.path@,
            f.contents@,
        ) =~= file_map_of(s.drop_last()).insert(f.path@, f.contents@));
    } else {
        assert(t.drop_last() =~= s.drop_last().update(i, f));
        assert(s.drop_last()[i] == s[i]);
        assert(forall|a: int, b: int|
            0 <= a < b < s.drop_last().len() ==> s.drop_last()[a].path@ != s.drop_last()[b].path@);
        lemma_file_map_update(s.drop_last(), i, f);
        assert(t.last() == s.last());
        assert(s.last().path@ != f.path@);
        assert(file_map_of(s.drop_last()).insert(f.path@, f.contents@).insert(
            s.last().path@,
            s.last().contents@,
        ) =~= file_map_of(s.drop_last()).insert(s.last().path@, s.last().contents@).insert(
            f.path@,
            f.contents@,
        ));
    }
}

/// A path is in the directory set exactly when some entry holds it.
proof fn lemma_dir_set_contains(s: Seq<String>, p: Seq<char>)
    ensures
        dir_set_of(s).contains(p) <==> (exists|i: int| 0 <= i < s.len() && s[i]@ == p),
    decreases s.len(),
{
    if s.len() > 0 {
        lemma_dir_set_contains(s.drop_last(), p);
        if s.last()@ != p {
            if exists|i: int| 0 <= i < s.len() && s[i]@ == p {
                let i = choose|i: int| 0 <= i < s.len() && s[i]@ == p;
                assert(s.drop_last()[i] == s[i]);
            }
            if exists|i: int| 0 <= i < s.drop_last().len() && s.drop_last()[i]@ == p {
                let i = choose|i: int| 0 <= i < s.drop_last().len() && s.drop_last()[i]@ == p;
                assert(s[i]@ == p);
            }
        }
    }
}

impl FsState {
    /// Every file path and every directory path occurs at most once.
    pub closed spec fn wf(self) -> bool {
        (forall|i: int, j: int|
            0 <= i < j < self.files@.len() ==> self.files@[i].path@ != self.files@[j].path@)
            && (forall|i: int, j: int|
            0 <= i < j < self.dirs@.len() ==> self.dirs@[i]@ != self.dirs@[j]@)
    }

    /// The files the model holds, as a map from path to text.
    pub closed spec fn file_map(self) -> Map<Seq<char>, Seq<char>> {
        file_map_of(self.files@)
    }

    /// The directory paths the model holds.
    pub closed spec fn dir_set(self) -> Set<Seq<char>> {
        dir_set_of(self.dirs@)
    }

    /// An empty tree: no directories, no files.
    pub fn new() -> (r: FsState)
        ensures
            r.wf(),
            r.file_map() == Map::<Seq<char>, Seq<char>>::empty(),
            r.dir_set() == Set::<Seq<char>>::empty(),
    {
        FsState { dirs: Vec::new(), files: Vec::new() }
    }

    /// The position of the file entry with the given path, if any.
    fn find_file(&self, path: &str) -> (r: Option<usize>)
        ensures
            match r {
                Some(i) => i < self.files@.len() && self.files@[i as int].path@ == path@,
                None => forall|i: int|
                    0 <= i < self.files@.len() ==> self.files@[i].path@ != path@,
            },
    {
        let mut i: usize = 0;
        while i < self.files.len()
            invariant
                0 <= i <= self.files@.len(),
                forall|j: int| 0 <= j < i ==> self.files@[j].path@ != path@,
            decreases self.files@.len() - i,
        {
            if str_eq(self.files[i].path.as_str(), path) {
                return Some(i);
            }
            i = i + 1;
        }
        None
    }

    /// The position of the directory entry with the given path, if any.
    fn find_dir(&self, path: &str) -> (r: Option<usize>)
        ensures
            match r {
                Some(i) => i < self.dirs@.len() && self.dirs@[i as int]@ == path@,
                None => forall|i: int| 0 <= i < self.dirs@.len() ==> self.dirs@[i]@ != path@,
            },
    {
        let mut i: usize = 0;
        while i < self.dirs.len()
            invariant
                0 <= i <= self.dirs@.len(),
                forall|j: int| 0 <= j < i ==> self.dirs@[j]@ != path@,
            decreases self.dirs@.len() - i,
        {
            if str_eq(self.dirs[i].as_str(), path) {
                return Some(i);
            }
            i = i + 1;
        }
        None
    }

    /// Whether a file exists at the given path.
    pub fn has_file(&self, path: &str) -> (r: bool)
        ensures
            r == self.file_map().contains_key(path@),
    {
        proof {
            lemma_file_map_contains(self.files@, path@);
        }
        match self.find_file(path) {
            Some(_) => true,
            None => false,
        }
    }

    /// Whether a directory exists at the given path.
    pub fn has_dir(&self, path: &str) -> (r: bool)
        ensures
            r == self.dir_set().contains(path@),
    {
        proof {
            lemma_dir_set_contains(self.dirs@, path@);
        }
        match self.find_dir(path) {
            Some(_) => true,
            None => false,
        }
    }

    /// The text of the file at the given path, if a file is there.
    pub fn read_file(&self, path: &str) -> (r: Option<String>)
        requires
            self.wf(),
        ensures
            match r {
                Some(c) => self.file_map().contains_key(path@) && c@ == self.file_map()[path@],
                None => !self.file_map().contains_key(path@),
            },
    {
        proof {
            lemma_file_map_contains(self.files@, path@);
        }
        match self.find_file(path) {
            Some(i) => {
                proof {
                    lemma_file_map_index(self.files@, i as int);
                }
                Some(self.files[i].contents.clone())
            },
            None => None,
        }
    }

    /// Records a directory at the given path.
    pub fn mkdir(&mut self, path: &str)
        requires
            old(self).wf(),
        ensures
            final(self).wf(),
            final(self).dir_set() == old(self).dir_set().insert(path@),
            final(self).file_map() == old(self).file_map(),
    {
        proof {
            lemma_dir_set_contains(self.dirs@, path@);
        }
        match self.find_dir(path) {
            Some(_) => {
                proof {
                    assert(old(self).dir_set().insert(path@) =~= old(self).dir_set());
                }
            },
            None => {
                let ghost prev = self.dirs@;
                self.dirs.push(path.to_owned());
                proof {
                    assert(self.dirs@.drop_last() =~= prev);
                    assert(self.files@ == old(self).files@);
                }
            },
        }
    }

    /// Writes the given text to the given path, creating the file if it
    /// is absent and replacing its text if it is present.
    pub fn write_file(&mut self, path: &str, contents: &str)
        requires
            old(self).wf(),
        ensures
            final(self).wf(),
            final(self).file_map() == old(self).file_map().insert(path@, contents@),
            final(self).dir_set() == old(self).dir_set(),
    {
        match self.find_file(path) {
            Some(i) => {
                let kept = self.files[i].path.clone();
                let entry = FsFile { path: kept, contents: contents.to_owned() };
                proof {
                    lemma_file_map_update(self.files@, i as int, entry);
                }
                self.files.set(i, entry);
            },
            None => {
                let ghost prev = self.files@;
                self.files.push(FsFile { path: path.to_owned(), contents: contents.to_owned() });
                proof {
                    assert(self.files@.drop_last() =~= prev);
                    assert(self.dirs@ == old(self).dirs@);
                }
            },
        }
    }
}

/// `n` names an immediate subdirectory of `d` in `fs`.
pub open spec fn is_subdir_name(fs: FsState, d: Seq<char>, n: Seq<char>) -> bool {
    fs.dir_set().contains(joined(d, n)) && !n.contains('/')
}

/// `n` names a file lying directly under `d` in `fs`.
pub open spec fn is_file_name(fs: FsState, d: Seq<char>, n: Seq<char>) -> bool {
    fs.file_map().contains_key(joined(d, n)) && !n.contains('/')
}

/// Among the first `upto` directory entries, one reads `d`, then `/`,
/// then the `/`-free name `n`.
spec fn scanned_subdir(dirs: Seq<String>, upto: int, d: Seq<char>, n: Seq<char>) -> bool {
    (exists|k: int| 0 <= k < upto && dirs[k]@ == joined(d, n)) && !n.contains('/')
}

/// Among the first `upto` file entries, one's path reads `d`, then `/`,
/// then the `/`-free name `n`, with `n` ending in `suffix`.
spec fn scanned_file(
    files: Seq<FsFile>,
    upto: int,
    d: Seq<char>,
    n: Seq<char>,
    suffix: Seq<char>,
) -> bool {
    (exists|k: int| 0 <= k < upto && files[k].path@ == joined(d, n)) && !n.contains('/')
        && is_suffix(n, suffix)
}

/// Scanning one more directory entry finds the names it held.
proof fn lemma_scanned_subdir_step(dirs: Seq<String>, i: int, d: Seq<char>, n: Seq<char>)
    requires
        0 <= i < dirs.len(),
    ensures
        scanned_subdir(dirs, i + 1, d, n) == (scanned_subdir(dirs, i, d, n) || (dirs[i]@
            == joined(d, n) && !n.contains('/'))),
{
    if scanned_subdir(dirs, i + 1, d, n) {
        let k = choose|k: int| 0 <= k < i + 1 && dirs[k]@ == joined(d, n);
        if k < i {
            assert(scanned_subdir(dirs, i, d, n));
        }
    }
    if scanned_subdir(dirs, i, d, n) {
        let k = choose|k: int| 0 <= k < i && dirs[k]@ == joined(d, n);
        assert(0 <= k < i + 1 && dirs[k]@ == joined(d, n));
    }
    if dirs[i]@ == joined(d, n) && !n.contains('/') {
        assert(0 <= i < i + 1 && dirs[i]@ == joined(d, n));
    }
}

/// Scanning one more file entry finds the names it held.
proof fn lemma_scanned_file_step(
    files: Seq<FsFile>,
    i: int,
    d: Seq<char>,
    n: Seq<char>,
    suffix: Seq<char>,
)
    requires
        0 <= i < files.len(),
    ensures
        scanned_file(files, i + 1, d, n, suffix) == (scanned_file(files, i, d, n, suffix) || (
        files[i].path@ == joined(d, n) && !n.contains('/') && is_suffix(n, suffix))),
{
    if scanned_file(files, i + 1, d, n, suffix) {
        let k = choose|k: int| 0 <= k < i + 1 && files[k].path@ == joined(d, n);
        if k < i {
            assert(scanned_file(files, i, d, n, suffix));
        }
    }
    if scanned_file(files, i, d, n, suffix) {
        let k = choose|k: int| 0 <= k < i && files[k].path@ == joined(d, n);
        assert(0 <= k < i + 1 && files[k].path@ == joined(d, n));
    }
    if files[i].path@ == joined(d, n) && !n.contains('/') && is_suffix(n, suffix) {
        assert(0 <= i < i + 1 && files[i].path@ == joined(d, n));
    }
}

/// Lists the names of all immediate subdirectories of `dir`, each once,
/// in the model's own order. Fails when `dir` itself is not a directory.
#[verifier::spinoff_prover]
pub fn subdir_names(fs: &FsState, dir: &str) -> (r: Result<Vec<String>, FsError>)
    requires
        fs.wf(),
    ensures
        match r {
            Ok(names) => fs.dir_set().contains(dir@) && distinct_names(names.deep_view())
                && (forall|n: Seq<char>|
                names.deep_view().contains(n) <==> is_subdir_name(*fs, dir@, n)),
            Err(e) => e == FsError::NotFound && !fs.dir_set().contains(dir@),
        },
{
    if !fs.has_dir(dir) {
        return Err(FsError::NotFound);
    }
    let mut names: Vec<String> = Vec::new();
    let mut i: usize = 0;
    proof {
        assert(names.deep_view() =~= Seq::<Seq<char>>::empty());
    }
    while i < fs.dirs.len()
        invariant
            fs.wf(),
            0 <= i <= fs.dirs@.len(),
            distinct_names(names.deep_view()),
            forall|n: Seq<char>|
                names.deep_view().contains(n) <==> scanned_subdir(fs.dirs@, i as int, dir@, n),
        decreases fs.dirs@.len() - i,
    {
        let ghost old_dv = names.deep_view();
        let ghost gi = i as int;
        match strip_dir(fs.dirs[i].as_str(), dir) {
            Some(rest) => {
                if !contains_ch(rest.as_str(), '/') {
                    proof {
                        if old_dv.contains(rest@) {
                            assert(scanned_subdir(fs.dirs@, gi, dir@, rest@));
                            let k = choose|k: int|
                                0 <= k < gi && fs.dirs@[k]@ == joined(dir@, rest@);
                            assert(fs.dirs@[k]@ == fs.dirs@[gi]@);
                            assert(false);
                        }
                    }
                    names.push(rest);
                    proof {
                        assert(names.deep_view() =~= old_dv.push(rest@));
                        assert forall|n: Seq<char>|
                            names.deep_view().contains(n) == scanned_subdir(
                                fs.dirs@,
                                gi + 1,
                                dir@,
                                n,
                            ) by {
                            lemma_scanned_subdir_step(fs.dirs@, gi, dir@, n);
                            if names.deep_view().contains(n) {
                                let w = choose|w: int|
                                    0 <= w < names.deep_view().len() && names.deep_view()[w] == n;
                                if w < old_dv.len() {
                                    assert(old_dv[w] == n);
                                    assert(old_dv.contains(n));
                                } else {
                                    assert(n == rest@);
                                    assert(fs.dirs@[gi]@ == joined(dir@, n));
                                }
                            }
                            if scanned_subdir(fs.dirs@, gi + 1, dir@, n) {
                                if scanned_subdir(fs.dirs@, gi, dir@, n) {
                                    assert(old_dv.contains(n));
                                    let w = choose|w: int|
                                        0 <= w < old_dv.len() && old_dv[w] == n;
                                    assert(names.deep_view()[w] == n);
                                    assert(names.deep_view().contains(n));
                                } else {
                                    crate::strings::lemma_joined_cancel(dir@, n, rest@);
                                    assert(names.deep_view().last() == n);
                                    assert(names.deep_view().contains(n));
                                }
                            }
                        }
                    }
                } else {
                    proof {
                        assert forall|n: Seq<char>|
                            names.deep_view().contains(n) == scanned_subdir(
                                fs.dirs@,
                                gi + 1,
                                dir@,
                                n,
                            ) by {
                            lemma_scanned_subdir_step(fs.dirs@, gi, dir@, n);
                            if scanned_subdir(fs.dirs@, gi + 1, dir@, n) && !scanned_subdir(
                                fs.dirs@,
                                gi,
                                dir@,
                                n,
                            ) {
                                crate::strings::lemma_joined_cancel(dir@, n, rest@);
                            }
                        }
                    }
                }
            },
            None => {
                proof {
                    assert forall|n: Seq<char>|
                        names.deep_view().contains(n) == scanned_subdir(
                            fs.dirs@,
                            gi + 1,
                            dir@,
                            n,
                        ) by {
                        lemma_scanned_subdir_step(fs.dirs@, gi, dir@, n);
                    }
                }
            },
        }
        i = i + 1;
    }
    proof {
        assert forall|n: Seq<char>|
            names.deep_view().contains(n) == is_subdir_name(*fs, dir@, n) by {
            lemma_dir_set_contains(fs.dirs@, joined(dir@, n));
            if names.deep_view().contains(n) {
                assert(scanned_subdir(fs.dirs@, fs.dirs@.len() as int, dir@, n));
            }
            if is_subdir_name(*fs, dir@, n) {
                let k = choose|k: int| 0 <= k < fs.dirs@.len() && fs.dirs@[k]@ == joined(dir@, n);
                assert(scanned_subdir(fs.dirs@, fs.dirs@.len() as int, dir@, n));
            }
        }
    }
    Ok(names)
}

/// Lists the names of all files lying directly under `dir` whose name
/// ends with `suffix`, each once, in the model's own order. Fails when
/// `dir` is not a directory. The suffix is a plain string suffix, not a
/// file extension: to catch an extension, the dot belongs in the suffix.
#[verifier::spinoff_prover]
pub fn files_with_suffix(fs: &FsState, dir: &str, suffix: &str) -> (r: Result<
    Vec<String>,
    FsError,
>)
    requires
        fs.wf(),
    ensures
        match r {
            Ok(names) => fs.dir_set().contains(dir@) && distinct_names(names.deep_view())
                && (forall|n: Seq<char>|
                names.deep_view().contains(n) <==> (is_file_name(*fs, dir@, n) && is_suffix(
                    n,
                    suffix@,
                ))),
            Err(e) => e == FsError::NotFound && !fs.dir_set().contains(dir@),
        },
{
    if !fs.has_dir(dir) {
        return Err(FsError::NotFound);
    }
    let mut names: Vec<String> = Vec::new();
    let mut i: usize = 0;
    proof {
        assert(names.deep_view() =~= Seq::<Seq<char>>::empty());
    }
    while i < fs.files.len()
        invariant
            fs.wf(),
            0 <= i <= fs.files@.len(),
            distinct_names(names.deep_view()),
            forall|n: Seq<char>|
                names.deep_view().contains(n) <==> scanned_file(
                    fs.files@,
                    i as int,
                    dir@,
                    n,
                    suffix@,
                ),
        decreases fs.files@.len() - i,
    {
        let ghost old_dv = names.deep_view();
        let ghost gi = i as int;
        match strip_dir(fs.files[i].path.as_str(), dir) {
            Some(rest) => {
                if !contains_ch(rest.as_str(), '/') && has_suffix(rest.as_str(), suffix) {
                    proof {
                        if old_dv.contains(rest@) {
                            assert(scanned_file(fs.files@, gi, dir@, rest@, suffix@));
                            let k = choose|k: int|
                                0 <= k < gi && fs.files@[k].path@ == joined(dir@, rest@);
                            assert(fs.files@[k].path@ == fs.files@[gi].path@);
                            assert(false);
                        }
                    }
                    names.push(rest);
                    proof {
                        assert(names.deep_view() =~= old_dv.push(rest@));
                        assert forall|n: Seq<char>|
                            names.deep_view().contains(n) == scanned_file(
                                fs.files@,
                                gi + 1,
                                dir@,
                                n,
                                suffix@,
                            ) by {
                            lemma_scanned_file_step(fs.files@, gi, dir@, n, suffix@);
                            if names.deep_view().contains(n) {
                                let w = choose|w: int|
                                    0 <= w < names.deep_view().len() && names.deep_view()[w] == n;
                                if w < old_dv.len() {
                                    assert(old_dv[w] == n);
                                    assert(old_dv.contains(n));
                                } else {
                                    assert(n == rest@);
                                    assert(fs.files@[gi].path@ == joined(dir@, n));
                                }
                            }
                            if scanned_file(fs.files@, gi + 1, dir@, n, suffix@) {
                                if scanned_file(fs.files@, gi, dir@, n, suffix@) {
                                    assert(old_dv.contains(n));
                                    let w = choose|w: int|
                                        0 <= w < old_dv.len() && old_dv[w] == n;
                                    assert(names.deep_view()[w] == n);
                                    assert(names.deep_view().contains(n));
                                } else {
                                    crate::strings::lemma_joined_cancel(dir@, n, rest@);
                                    assert(names.deep_view().last() == n);
                                    assert(names.deep_view().contains(n));
                                }
                            }
                        }
                    }
                } else {
                    proof {
                        assert forall|n: Seq<char>|
                            names.deep_view().contains(n) == scanned_file(
                                fs.files@,
                                gi + 1,
                                dir@,
                                n,
                                suffix@,
                            ) by {
                            lemma_scanned_file_step(fs.files@, gi, dir@, n, suffix@);
                            if scanned_file(fs.files@, gi + 1, dir@, n, suffix@) && !scanned_file(
                                fs.files@,
                                gi,
                                dir@,
                                n,
                                suffix@,
                            ) {
                                crate::strings::lemma_joined_cancel(dir@, n, rest@);
                            }
                        }
                    }
                }
            },
            None => {
                proof {
                    assert forall|n: Seq<char>|
                        names.deep_view().contains(n) == scanned_file(
                            fs.files@,
                            gi + 1,
                            dir@,
                            n,
                            suffix@,
                        ) by {
                        lemma_scanned_file_step(fs.files@, gi, dir@, n, suffix@);
                    }
                }
            },
        }
        i = i + 1;
    }
    proof {
        assert forall|n: Seq<char>|
            names.deep_view().contains(n) == (is_file_name(*fs, dir@, n) && is_suffix(
                n,
                suffix@,
            )) by {
            lemma_file_map_contains(fs.files@, joined(dir@, n));
            if names.deep_view().contains(n) {
                assert(scanned_file(fs.files@, fs.files@.len() as int, dir@, n, suffix@));
            }
            if is_file_name(*fs, dir@, n) && is_suffix(n, suffix@) {
                let k = choose|k: int|
                    0 <= k < fs.files@.len() && fs.files@[k].path@ == joined(dir@, n);
                assert(scanned_file(fs.files@, fs.files@.len() as int, dir@, n, suffix@));
            }
        }
    }
    Ok(names)
}


/// Copies the listed files from directly under `src` to directly under
/// `dest`, creating `dest` and never replacing a file already present.
#[verifier::loop_isolation(false)]
#[verifier::spinoff_prover]
pub fn copy_files(fs: &mut FsState, names: &Vec<String>, src: &str, dest: &str)
    requires
        old(fs).wf(),
        forall|w: int| #![trigger names.deep_view()[w]]
            0 <= w < names.deep_view().len() ==> !names.deep_view()[w].contains('/') && old(fs).file_map().contains_key(joined(src@, names.deep_view()[w])),
    ensures
        final(fs).wf(),
        final(fs).dir_set() == old(fs).dir_set().insert(dest@),
        // never overwrites: every file already present keeps its text
        forall|p: Seq<char>| #![trigger old(fs).file_map().contains_key(p)]
            old(fs).file_map().contains_key(p) ==> final(fs).file_map().contains_key(p) && final(fs).file_map()[p] == old(fs).file_map()[p],
        // every listed file arrives, with the source text unless the
        // destination already held a file of that name
        forall|w: int| #![trigger names.deep_view()[w]]
            0 <= w < names.deep_view().len() ==> final(fs).file_map().contains_key(
                joined(dest@, names.deep_view()[w]),
            ) && (!old(fs).file_map().contains_key(joined(dest@, names.deep_view()[w])) ==> final(fs).file_map()[joined(dest@, names.deep_view()[w])] == old(fs).file_map()[joined(
                src@,
                names.deep_view()[w],
            )]),
        // and nothing else appears
        forall|p: Seq<char>| #![trigger final(fs).file_map().contains_key(p)]
            final(fs).file_map().contains_key(p) ==> old(fs).file_map().contains_key(p) || (exists|
                w: int,
            | 0 <= w < names.deep_view().len() && p == joined(dest@, names.deep_view()[w])),
{
    fs.mkdir(dest);
    let mut w: usize = 0;
    while w < names.len()
        invariant
            fs.wf(),
            0 <= w <= names.deep_view().len(),
            fs.dir_set() == old(fs).dir_set().insert(dest@),
            forall|p: Seq<char>| #![trigger old(fs).file_map().contains_key(p)]
                old(fs).file_map().contains_key(p) ==> fs.file_map().contains_key(p)
                    && fs.file_map()[p] == old(fs).file_map()[p],
            forall|v: int| #![trigger names.deep_view()[v]]
                0 <= v < w ==> fs.file_map().contains_key(joined(dest@, names.deep_view()[v])) && (
                !old(fs).file_map().contains_key(joined(dest@, names.deep_view()[v]))
                    ==> fs.file_map()[joined(dest@, names.deep_view()[v])] == old(fs).file_map()[joined(src@, names.deep_view()[v])]),
            forall|p: Seq<char>| #![trigger fs.file_map().contains_key(p)]
                fs.file_map().contains_key(p) ==> old(fs).file_map().contains_key(p) || (exists|
                    v: int,
                | 0 <= v < w && p == joined(dest@, names.deep_view()[v])),
        decreases names.deep_view().len() - w,
    {
        let name = names[w].as_str();
        proof {
            assert(name@ == names.deep_view()[w as int]);
        }
        let dest_path = crate::strings::path_join(dest, name);
        let src_path = crate::strings::path_join(src, name);
        if !fs.has_file(dest_path.as_str()) {
            let ghost pre = fs.file_map();
            proof {
                assert(old(fs).file_map().contains_key(joined(src@, names.deep_view()[w as int])));
                assert(src_path@ == joined(src@, names.deep_view()[w as int]));
                assert(fs.file_map().contains_key(joined(src@, names.deep_view()[w as int])));
                assert(pre.contains_key(src_path@));
            }
            let text = match fs.read_file(src_path.as_str()) {
                Some(c) => c,
                None => {
                    proof {
                        assert(false);
                    }
                    String::new()
                },
            };
            fs.write_file(dest_path.as_str(), text.as_str());
            proof {
                assert(fs.file_map() == pre.insert(dest_path@, text@));
                assert(!pre.contains_key(dest_path@));
                assert forall|p: Seq<char>| old(fs).file_map().contains_key(p) implies fs.file_map().contains_key(p)
                    && fs.file_map()[p] == old(fs).file_map()[p] by {
                    assert(pre.contains_key(p));
                    assert(p != dest_path@);
                }
                assert(text@ == old(fs).file_map()[joined(src@, names.deep_view()[w as int])]);
                assert forall|v: int| #![trigger names.deep_view()[v]] 0 <= v < w + 1 implies fs.file_map().contains_key(
                    joined(dest@, names.deep_view()[v]),
                ) && (!old(fs).file_map().contains_key(joined(dest@, names.deep_view()[v]))
                    ==> fs.file_map()[joined(dest@, names.deep_view()[v])] == old(fs).file_map()[joined(
                    src@,
                    names.deep_view()[v],
                )]) by {
                    if v < w {
                        assert(pre.contains_key(joined(dest@, names.deep_view()[v])));
                        assert(joined(dest@, names.deep_view()[v]) != dest_path@);
                    }
                }
                assert forall|p: Seq<char>| fs.file_map().contains_key(p) implies old(fs).file_map().contains_key(p) || (exists|v: int|
                    0 <= v < w + 1 && p == joined(dest@, names.deep_view()[v])) by {
                    if p == dest_path@ {
                        assert(p == joined(dest@, names.deep_view()[w as int]));
                    } else {
                        assert(pre.contains_key(p));
                    }
                }
            }
        } else {
            proof {
                let gw = w as int;
                let q = joined(dest@, names.deep_view()[gw]);
                if !old(fs).file_map().contains_key(q) {
                    let v = choose|v: int| 0 <= v < gw && q == joined(dest@, names.deep_view()[v]);
                    crate::strings::lemma_joined_cancel(
                        dest@,
                        names.deep_view()[gw],
                        names.deep_view()[v],
                    );
                }
            }
        }
        w = w + 1;
    }
}


/// Among the first `upto` file entries, one's path reads `src`, then
/// `/`, then `rest`.
spec fn scanned_src_file(files: Seq<FsFile>, upto: int, src: Seq<char>, rest: Seq<char>) -> bool {
    exists|k: int| 0 <= k < upto && files[k].path@ == joined(src, rest)
}

/// Among the first `upto` directory entries, one reads `src`, then `/`,
/// then `rest`.
spec fn scanned_src_dir(dirs: Seq<String>, upto: int, src: Seq<char>, rest: Seq<char>) -> bool {
    exists|k: int| 0 <= k < upto && dirs[k]@ == joined(src, rest)
}

/// Scanning one more file entry reaches the remainders it holds.
proof fn lemma_scanned_src_file_step(
    files: Seq<FsFile>,
    i: int,
    src: Seq<char>,
    rest: Seq<char>,
)
    requires
        0 <= i < files.len(),
    ensures
        scanned_src_file(files, i + 1, src, rest) == (scanned_src_file(files, i, src, rest)
            || files[i].path@ == joined(src, rest)),
{
    if scanned_src_file(files, i + 1, src, rest) {
        let k = choose|k: int| 0 <= k < i + 1 && files[k].path@ == joined(src, rest);
        if k < i {
            assert(scanned_src_file(files, i, src, rest));
        }
    }
    if scanned_src_file(files, i, src, rest) {
        let k = choose|k: int| 0 <= k < i && files[k].path@ == joined(src, rest);
        assert(0 <= k < i + 1 && files[k].path@ == joined(src, rest));
    }
    if files[i].path@ == joined(src, rest) {
        assert(0 <= i < i + 1 && files[i].path@ == joined(src, rest));
    }
}

/// Scanning one more directory entry reaches the remainders it holds.
proof fn lemma_scanned_src_dir_step(dirs: Seq<String>, i: int, src: Seq<char>, rest: Seq<char>)
    requires
        0 <= i < dirs.len(),
    ensures
        scanned_src_dir(dirs, i + 1, src, rest) == (scanned_src_dir(dirs, i, src, rest) || dirs[i]@
            == joined(src, rest)),
{
    if scanned_src_dir(dirs, i + 1, src, rest) {
        let k = choose|k: int| 0 <= k < i + 1 && dirs[k]@ == joined(src, rest);
        if k < i {
            assert(scanned_src_dir(dirs, i, src, rest));
        }
    }
    if scanned_src_dir(dirs, i, src, rest) {
        let k = choose|k: int| 0 <= k < i && dirs[k]@ == joined(src, rest);
        assert(0 <= k < i + 1 && dirs[k]@ == joined(src, rest));
    }
    if dirs[i]@ == joined(src, rest) {
        assert(0 <= i < i + 1 && dirs[i]@ == joined(src, rest));
    }
}

/// The collected copy `f` is sound for remainder `rest`: it aims at
/// `dest/rest`, a source file `src/rest` stands among the first `upto`
/// entries, the copy carries that file's text, and no file stands at
/// `dest/rest` yet.
#[verifier::opaque]
spec fn good_file_copy(
    files: Seq<FsFile>,
    fm: Map<Seq<char>, Seq<char>>,
    upto: int,
    src: Seq<char>,
    dest: Seq<char>,
    f: FsFile,
    rest: Seq<char>,
) -> bool {
    f.path@ == joined(dest, rest) && scanned_src_file(files, upto, src, rest) && fm.contains_key(
        joined(src, rest),
    ) && fm[joined(src, rest)] == f.contents@ && !fm.contains_key(joined(dest, rest))
}

/// A sound copy for `upto` entries is sound for one more.
proof fn lemma_good_file_copy_step(
    files: Seq<FsFile>,
    fm: Map<Seq<char>, Seq<char>>,
    upto: int,
    src: Seq<char>,
    dest: Seq<char>,
    f: FsFile,
    rest: Seq<char>,
)
    requires
        0 <= upto < files.len(),
        good_file_copy(files, fm, upto, src, dest, f, rest),
    ensures
        good_file_copy(files, fm, upto + 1, src, dest, f, rest),
{
    reveal(good_file_copy);
    lemma_scanned_src_file_step(files, upto, src, rest);
}

/// One scan step of the file collection where nothing is recorded: the
/// entry at `gi` either does not lie below `src`, or its counterpart
/// below `dest` already exists.
#[verifier::spinoff_prover]
#[verifier::rlimit(100)]
proof fn lemma_collect_files_keep(
    files: Seq<FsFile>,
    fm: Map<Seq<char>, Seq<char>>,
    gi: int,
    src: Seq<char>,
    dest: Seq<char>,
    newf: Seq<FsFile>,
    rests: Seq<Seq<char>>,
)
    requires
        0 <= gi < files.len(),
        rests.len() == newf.len(),
        forall|j: int| #![trigger newf[j]]
            0 <= j < newf.len() ==> good_file_copy(files, fm, gi, src, dest, newf[j], rests[j]),
        forall|rest: Seq<char>| #![trigger scanned_src_file(files, gi, src, rest)]
            scanned_src_file(files, gi, src, rest) && !fm.contains_key(joined(dest, rest)) ==> (
            exists|j: int| 0 <= j < newf.len() && newf[j].path@ == joined(dest, rest)),
        (forall|rest: Seq<char>| files[gi].path@ != joined(src, rest)) || (exists|rest: Seq<char>|
            files[gi].path@ == joined(src, rest) && fm.contains_key(joined(dest, rest))),
    ensures
        forall|j: int| #![trigger newf[j]]
            0 <= j < newf.len() ==> good_file_copy(files, fm, gi + 1, src, dest, newf[j], rests[j]),
        forall|rest: Seq<char>| #![trigger scanned_src_file(files, gi + 1, src, rest)]
            scanned_src_file(files, gi + 1, src, rest) && !fm.contains_key(joined(dest, rest))
                ==> (exists|j: int| 0 <= j < newf.len() && newf[j].path@ == joined(dest, rest)),
{
    assert forall|j: int| #![trigger newf[j]]
        0 <= j < newf.len() implies good_file_copy(files, fm, gi + 1, src, dest, newf[j], rests[j]) by {
        assert(good_file_copy(files, fm, gi, src, dest, newf[j], rests[j]));
        lemma_good_file_copy_step(files, fm, gi, src, dest, newf[j], rests[j]);
    }
    assert forall|rest: Seq<char>| #![trigger scanned_src_file(files, gi + 1, src, rest)]
        scanned_src_file(files, gi + 1, src, rest) && !fm.contains_key(joined(dest, rest)) implies (
    exists|j: int| 0 <= j < newf.len() && newf[j].path@ == joined(dest, rest)) by {
        lemma_scanned_src_file_step(files, gi, src, rest);
        if !scanned_src_file(files, gi, src, rest) {
            assert(files[gi].path@ == joined(src, rest));
            let r2 = choose|r2: Seq<char>|
                files[gi].path@ == joined(src, r2) && fm.contains_key(joined(dest, r2));
            crate::strings::lemma_joined_cancel(src, rest, r2);
            assert(false);
        }
    }
}

/// One scan step of the file collection where a copy is recorded: the
/// entry at `gi` lies below `src` and its counterpart below `dest` is
/// absent.
#[verifier::spinoff_prover]
#[verifier::rlimit(100)]
proof fn lemma_collect_files_push(
    files: Seq<FsFile>,
    fm: Map<Seq<char>, Seq<char>>,
    gi: int,
    src: Seq<char>,
    dest: Seq<char>,
    prev: Seq<FsFile>,
    prev_rests: Seq<Seq<char>>,
    newf: Seq<FsFile>,
    rests: Seq<Seq<char>>,
    rest: Seq<char>,
)
    requires
        0 <= gi < files.len(),
        forall|a: int, b: int| 0 <= a < b < files.len() ==> files[a].path@ != files[b].path@,
        prev_rests.len() == prev.len(),
        forall|j: int| #![trigger prev[j]]
            0 <= j < prev.len() ==> good_file_copy(files, fm, gi, src, dest, prev[j], prev_rests[j]),
        forall|rest2: Seq<char>| #![trigger scanned_src_file(files, gi, src, rest2)]
            scanned_src_file(files, gi, src, rest2) && !fm.contains_key(joined(dest, rest2)) ==> (
            exists|j: int| 0 <= j < prev.len() && prev[j].path@ == joined(dest, rest2)),
        forall|j1: int, j2: int|
            0 <= j1 < j2 < prev_rests.len() ==> prev_rests[j1] != prev_rests[j2],
        files[gi].path@ == joined(src, rest),
        fm.contains_key(joined(src, rest)),
        fm[joined(src, rest)] == files[gi].contents@,
        !fm.contains_key(joined(dest, rest)),
        newf.len() == prev.len() + 1,
        forall|j: int| 0 <= j < prev.len() ==> newf[j] == prev[j],
        newf[prev.len() as int].path@ == joined(dest, rest),
        newf[prev.len() as int].contents@ == files[gi].contents@,
        rests == prev_rests.push(rest),
    ensures
        forall|j: int| #![trigger newf[j]]
            0 <= j < newf.len() ==> good_file_copy(files, fm, gi + 1, src, dest, newf[j], rests[j]),
        forall|rest2: Seq<char>| #![trigger scanned_src_file(files, gi + 1, src, rest2)]
            scanned_src_file(files, gi + 1, src, rest2) && !fm.contains_key(joined(dest, rest2))
                ==> (exists|j: int| 0 <= j < newf.len() && newf[j].path@ == joined(dest, rest2)),
        forall|j1: int, j2: int| 0 <= j1 < j2 < rests.len() ==> rests[j1] != rests[j2],
{
    assert forall|j: int| #![trigger newf[j]]
        0 <= j < newf.len() implies good_file_copy(files, fm, gi + 1, src, dest, newf[j], rests[j]) by {
        reveal(good_file_copy);
        if j < prev.len() {
            assert(newf[j] == prev[j]);
            assert(rests[j] == prev_rests[j]);
            assert(good_file_copy(files, fm, gi, src, dest, prev[j], prev_rests[j]));
            lemma_good_file_copy_step(files, fm, gi, src, dest, prev[j], prev_rests[j]);
        } else {
            assert(rests[j] == rest);
            assert(0 <= gi < gi + 1 && files[gi].path@ == joined(src, rest));
            assert(scanned_src_file(files, gi + 1, src, rest));
        }
    }
    assert forall|rest2: Seq<char>| #![trigger scanned_src_file(files, gi + 1, src, rest2)]
        scanned_src_file(files, gi + 1, src, rest2) && !fm.contains_key(joined(dest, rest2)) implies (
    exists|j: int| 0 <= j < newf.len() && newf[j].path@ == joined(dest, rest2)) by {
        lemma_scanned_src_file_step(files, gi, src, rest2);
        if scanned_src_file(files, gi, src, rest2) {
            let j = choose|j: int| 0 <= j < prev.len() && prev[j].path@ == joined(dest, rest2);
            assert(newf[j].path@ == joined(dest, rest2));
        } else {
            crate::strings::lemma_joined_cancel(src, rest2, rest);
            assert(newf[prev.len() as int].path@ == joined(dest, rest2));
        }
    }
    assert forall|j1: int, j2: int|
        0 <= j1 < j2 < rests.len() implies rests[j1] != rests[j2] by {
        if j2 == rests.len() - 1 && rests[j1] == rests[j2] {
            reveal(good_file_copy);
            assert(rests[j1] == prev_rests[j1]);
            assert(good_file_copy(files, fm, gi, src, dest, prev[j1], prev_rests[j1]));
            assert(scanned_src_file(files, gi, src, prev_rests[j1]));
            let k = choose|k: int| 0 <= k < gi && files[k].path@ == joined(src, prev_rests[j1]);
            assert(files[k].path@ == files[gi].path@);
            assert(false);
        }
    }
}

/// Turns the finished scan's completeness into the collector's
/// contract over the file map.
#[verifier::spinoff_prover]
#[verifier::rlimit(100)]
proof fn lemma_collect_files_done_contains(
    files: Seq<FsFile>,
    fm: Map<Seq<char>, Seq<char>>,
    src: Seq<char>,
    dest: Seq<char>,
    newf: Seq<FsFile>,
)
    requires
        fm == file_map_of(files),
        forall|rest: Seq<char>| #![trigger scanned_src_file(files, files.len() as int, src, rest)]
            scanned_src_file(files, files.len() as int, src, rest) && !fm.contains_key(
                joined(dest, rest),
            ) ==> (exists|j: int| 0 <= j < newf.len() && newf[j].path@ == joined(dest, rest)),
    ensures
        forall|rest: Seq<char>| #![trigger fm.contains_key(joined(src, rest))]
            fm.contains_key(joined(src, rest)) && !fm.contains_key(joined(dest, rest)) ==> (exists|
                j: int,
            | 0 <= j < newf.len() && newf[j].path@ == joined(dest, rest)),
{
    assert forall|rest: Seq<char>| #![trigger fm.contains_key(joined(src, rest))]
        fm.contains_key(joined(src, rest)) && !fm.contains_key(joined(dest, rest)) implies (exists|
        j: int,
    | 0 <= j < newf.len() && newf[j].path@ == joined(dest, rest)) by {
        lemma_file_map_contains(files, joined(src, rest));
        assert(scanned_src_file(files, files.len() as int, src, rest));
    }
}

/// Two collected copies never aim at the same destination path, since
/// their remainders differ.
#[verifier::spinoff_prover]
#[verifier::rlimit(100)]
proof fn lemma_collect_files_done_distinct(
    files: Seq<FsFile>,
    fm: Map<Seq<char>, Seq<char>>,
    src: Seq<char>,
    dest: Seq<char>,
    newf: Seq<FsFile>,
    rests: Seq<Seq<char>>,
)
    requires
        rests.len() == newf.len(),
        forall|j: int| #![trigger newf[j]]
            0 <= j < newf.len() ==> good_file_copy(
                files,
                fm,
                files.len() as int,
                src,
                dest,
                newf[j],
                rests[j],
            ),
        forall|j1: int, j2: int|
            0 <= j1 < j2 < rests.len() ==> rests[j1] != rests[j2],
    ensures
        forall|j1: int, j2: int| 0 <= j1 < j2 < newf.len() ==> newf[j1].path@ != newf[j2].path@,
{
    assert forall|j1: int, j2: int|
        0 <= j1 < j2 < newf.len() implies newf[j1].path@ != newf[j2].path@ by {
        reveal(good_file_copy);
        assert(good_file_copy(files, fm, files.len() as int, src, dest, newf[j1], rests[j1]));
        assert(good_file_copy(files, fm, files.len() as int, src, dest, newf[j2], rests[j2]));
        if newf[j1].path@ == newf[j2].path@ {
            crate::strings::lemma_joined_cancel(dest, rests[j1], rests[j2]);
        }
    }
}

/// Collects the file copies that copying everything below `src` to the
/// same place below `dest` would make: one copy for each file below
/// `src` whose counterpart below `dest` is absent. Besides the copies
/// it hands back, for the proof, the remainder below `src` that each
/// copy came from.
#[verifier::spinoff_prover]
#[verifier::rlimit(100)]
fn collect_file_copies(fs: &FsState, src: &str, dest: &str) -> (r: (
    Vec<FsFile>,
    Ghost<Seq<Seq<char>>>,
))
    requires
        fs.wf(),
    ensures
        r.1@.len() == r.0@.len(),
        forall|j: int| #![trigger r.0@[j]]
            0 <= j < r.0@.len() ==> good_file_copy(
                fs.files@,
                fs.file_map(),
                fs.files@.len() as int,
                src@,
                dest@,
                r.0@[j],
                r.1@[j],
            ),
        forall|rest: Seq<char>| #![trigger fs.file_map().contains_key(joined(src@, rest))]
            fs.file_map().contains_key(joined(src@, rest)) && !fs.file_map().contains_key(
                joined(dest@, rest),
            ) ==> (exists|j: int| 0 <= j < r.0@.len() && r.0@[j].path@ == joined(dest@, rest)),
        forall|j1: int, j2: int| 0 <= j1 < j2 < r.0@.len() ==> r.0@[j1].path@ != r.0@[j2].path@,
{
    let mut new_files: Vec<FsFile> = Vec::new();
    let ghost mut rests: Seq<Seq<char>> = Seq::empty();
    let mut i: usize = 0;
    while i < fs.files.len()
        invariant
            fs.wf(),
            0 <= i <= fs.files@.len(),
            rests.len() == new_files@.len(),
            forall|j: int| #![trigger new_files@[j]]
                0 <= j < new_files@.len() ==> good_file_copy(
                    fs.files@,
                    fs.file_map(),
                    i as int,
                    src@,
                    dest@,
                    new_files@[j],
                    rests[j],
                ),
            forall|rest: Seq<char>| #![trigger scanned_src_file(fs.files@, i as int, src@, rest)]
                scanned_src_file(fs.files@, i as int, src@, rest) && !fs.file_map().contains_key(
                    joined(dest@, rest),
                ) ==> (exists|j: int|
                    0 <= j < new_files@.len() && new_files@[j].path@ == joined(dest@, rest)),
            forall|j1: int, j2: int| 0 <= j1 < j2 < rests.len() ==> rests[j1] != rests[j2],
        decreases fs.files@.len() - i,
    {
        let ghost gi = i as int;
        let ghost prev = new_files@;
        let ghost prev_rests = rests;
        match strip_dir(fs.files[i].path.as_str(), src) {
            Some(rest) => {
                let dest_path = crate::strings::path_join(dest, rest.as_str());
                if !fs.has_file(dest_path.as_str()) {
                    let text = fs.files[i].contents.clone();
                    new_files.push(FsFile { path: dest_path, contents: text });
                    proof {
                        rests = rests.push(rest@);
                        lemma_file_map_index(fs.files@, gi);
                        lemma_collect_files_push(
                            fs.files@,
                            fs.file_map(),
                            gi,
                            src@,
                            dest@,
                            prev,
                            prev_rests,
                            new_files@,
                            rests,
                            rest@,
                        );
                    }
                } else {
                    proof {
                        assert(fs.files@[gi].path@ == joined(src@, rest@)
                            && fs.file_map().contains_key(joined(dest@, rest@)));
                        lemma_collect_files_keep(
                            fs.files@,
                            fs.file_map(),
                            gi,
                            src@,
                            dest@,
                            new_files@,
                            rests,
                        );
                    }
                }
            },
            None => {
                proof {
                    lemma_collect_files_keep(
                        fs.files@,
                        fs.file_map(),
                        gi,
                        src@,
                        dest@,
                        new_files@,
                        rests,
                    );
                }
            },
        }
        i = i + 1;
    }
    proof {
        lemma_collect_files_done_contains(fs.files@, fs.file_map(), src@, dest@, new_files@);
        lemma_collect_files_done_distinct(fs.files@, fs.file_map(), src@, dest@, new_files@, rests);
    }
    (new_files, Ghost(rests))
}


/// The collected directory `q` is sound for remainder `rest`: it aims
/// at `dest/rest` and a directory stands at `src/rest`.
#[verifier::opaque]
spec fn dir_copy_entry(
    ds: Set<Seq<char>>,
    src: Seq<char>,
    dest: Seq<char>,
    q: String,
    rest: Seq<char>,
) -> bool {
    q@ == joined(dest, rest) && ds.contains(joined(src, rest))
}

/// The collected directory `q` is sound for remainder `rest` over the
/// first `upto` entries of the scan.
#[verifier::opaque]
spec fn good_dir_copy(
    dirs: Seq<String>,
    upto: int,
    src: Seq<char>,
    dest: Seq<char>,
    q: String,
    rest: Seq<char>,
) -> bool {
    q@ == joined(dest, rest) && scanned_src_dir(dirs, upto, src, rest)
}

/// A sound directory copy for `upto` entries is sound for one more.
proof fn lemma_good_dir_copy_step(
    dirs: Seq<String>,
    upto: int,
    src: Seq<char>,
    dest: Seq<char>,
    q: String,
    rest: Seq<char>,
)
    requires
        0 <= upto < dirs.len(),
        good_dir_copy(dirs, upto, src, dest, q, rest),
    ensures
        good_dir_copy(dirs, upto + 1, src, dest, q, rest),
{
    reveal(good_dir_copy);
    lemma_scanned_src_dir_step(dirs, upto, src, rest);
}

/// One scan step of the directory collection where nothing is recorded:
/// the entry at `gd` does not lie below `src`.
#[verifier::spinoff_prover]
#[verifier::rlimit(100)]
proof fn lemma_collect_dirs_keep(
    dirs: Seq<String>,
    gd: int,
    src: Seq<char>,
    dest: Seq<char>,
    newd: Seq<String>,
    rests: Seq<Seq<char>>,
)
    requires
        0 <= gd < dirs.len(),
        rests.len() == newd.len(),
        forall|j: int| #![trigger newd[j]]
            0 <= j < newd.len() ==> good_dir_copy(dirs, gd, src, dest, newd[j], rests[j]),
        forall|rest: Seq<char>| #![trigger scanned_src_dir(dirs, gd, src, rest)]
            scanned_src_dir(dirs, gd, src, rest) ==> (exists|j: int|
                0 <= j < newd.len() && newd[j]@ == joined(dest, rest)),
        forall|rest: Seq<char>| dirs[gd]@ != joined(src, rest),
    ensures
        forall|j: int| #![trigger newd[j]]
            0 <= j < newd.len() ==> good_dir_copy(dirs, gd + 1, src, dest, newd[j], rests[j]),
        forall|rest: Seq<char>| #![trigger scanned_src_dir(dirs, gd + 1, src, rest)]
            scanned_src_dir(dirs, gd + 1, src, rest) ==> (exists|j: int|
                0 <= j < newd.len() && newd[j]@ == joined(dest, rest)),
{
    assert forall|j: int| #![trigger newd[j]]
        0 <= j < newd.len() implies good_dir_copy(dirs, gd + 1, src, dest, newd[j], rests[j]) by {
        assert(good_dir_copy(dirs, gd, src, dest, newd[j], rests[j]));
        lemma_good_dir_copy_step(dirs, gd, src, dest, newd[j], rests[j]);
    }
    assert forall|rest: Seq<char>| #![trigger scanned_src_dir(dirs, gd + 1, src, rest)]
        scanned_src_dir(dirs, gd + 1, src, rest) implies (exists|j: int|
        0 <= j < newd.len() && newd[j]@ == joined(dest, rest)) by {
        lemma_scanned_src_dir_step(dirs, gd, src, rest);
    }
}

/// One scan step of the directory collection where the entry at `gd`
/// lies below `src` and its copy was recorded.
#[verifier::spinoff_prover]
#[verifier::rlimit(100)]
proof fn lemma_collect_dirs_push(
    dirs: Seq<String>,
    gd: int,
    src: Seq<char>,
    dest: Seq<char>,
    prevd: Seq<String>,
    prev_rests: Seq<Seq<char>>,
    newd: Seq<String>,
    rests: Seq<Seq<char>>,
    rest: Seq<char>,
)
    requires
        0 <= gd < dirs.len(),
        prev_rests.len() == prevd.len(),
        forall|j: int| #![trigger prevd[j]]
            0 <= j < prevd.len() ==> good_dir_copy(dirs, gd, src, dest, prevd[j], prev_rests[j]),
        forall|rest2: Seq<char>| #![trigger scanned_src_dir(dirs, gd, src, rest2)]
            scanned_src_dir(dirs, gd, src, rest2) ==> (exists|j: int|
                0 <= j < prevd.len() && prevd[j]@ == joined(dest, rest2)),
        dirs[gd]@ == joined(src, rest),
        newd.len() == prevd.len() + 1,
        forall|j: int| 0 <= j < prevd.len() ==> newd[j] == prevd[j],
        newd[prevd.len() as int]@ == joined(dest, rest),
        rests == prev_rests.push(rest),
    ensures
        forall|j: int| #![trigger newd[j]]
            0 <= j < newd.len() ==> good_dir_copy(dirs, gd + 1, src, dest, newd[j], rests[j]),
        forall|rest2: Seq<char>| #![trigger scanned_src_dir(dirs, gd + 1, src, rest2)]
            scanned_src_dir(dirs, gd + 1, src, rest2) ==> (exists|j: int|
                0 <= j < newd.len() && newd[j]@ == joined(dest, rest2)),
{
    assert forall|j: int| #![trigger newd[j]]
        0 <= j < newd.len() implies good_dir_copy(dirs, gd + 1, src, dest, newd[j], rests[j]) by {
        reveal(good_dir_copy);
        if j < prevd.len() {
            assert(newd[j] == prevd[j]);
            assert(rests[j] == prev_rests[j]);
            assert(good_dir_copy(dirs, gd, src, dest, prevd[j], prev_rests[j]));
            lemma_scanned_src_dir_step(dirs, gd, src, prev_rests[j]);
        } else {
            assert(rests[j] == rest);
            assert(0 <= gd < gd + 1 && dirs[gd]@ == joined(src, rest));
            assert(scanned_src_dir(dirs, gd + 1, src, rest));
        }
    }
    assert forall|rest2: Seq<char>| #![trigger scanned_src_dir(dirs, gd + 1, src, rest2)]
        scanned_src_dir(dirs, gd + 1, src, rest2) implies (exists|j: int|
        0 <= j < newd.len() && newd[j]@ == joined(dest, rest2)) by {
        lemma_scanned_src_dir_step(dirs, gd, src, rest2);
        if scanned_src_dir(dirs, gd, src, rest2) {
            let j = choose|j: int| 0 <= j < prevd.len() && prevd[j]@ == joined(dest, rest2);
            assert(newd[j]@ == joined(dest, rest2));
        } else {
            crate::strings::lemma_joined_cancel(src, rest2, rest);
            assert(newd[prevd.len() as int]@ == joined(dest, rest2));
        }
    }
}

/// Turns the finished directory scan into the collector's contract over
/// the directory set.
#[verifier::spinoff_prover]
#[verifier::rlimit(100)]
proof fn lemma_collect_dirs_done(
    dirs: Seq<String>,
    ds: Set<Seq<char>>,
    src: Seq<char>,
    dest: Seq<char>,
    newd: Seq<String>,
    rests: Seq<Seq<char>>,
)
    requires
        ds == dir_set_of(dirs),
        rests.len() == newd.len(),
        forall|j: int| #![trigger newd[j]]
            0 <= j < newd.len() ==> good_dir_copy(
                dirs,
                dirs.len() as int,
                src,
                dest,
                newd[j],
                rests[j],
            ),
    ensures
        forall|j: int| #![trigger newd[j]]
            0 <= j < newd.len() ==> dir_copy_entry(ds, src, dest, newd[j], rests[j]),
{
    assert forall|j: int| #![trigger newd[j]]
        0 <= j < newd.len() implies dir_copy_entry(ds, src, dest, newd[j], rests[j]) by {
        reveal(good_dir_copy);
        reveal(dir_copy_entry);
        assert(good_dir_copy(dirs, dirs.len() as int, src, dest, newd[j], rests[j]));
        lemma_dir_set_contains(dirs, joined(src, rests[j]));
        assert(scanned_src_dir(dirs, dirs.len() as int, src, rests[j]));
    }
}

/// Turns the finished directory scan's completeness into the
/// collector's contract over the directory set.
#[verifier::spinoff_prover]
#[verifier::rlimit(100)]
proof fn lemma_collect_dirs_done_contains(
    dirs: Seq<String>,
    ds: Set<Seq<char>>,
    src: Seq<char>,
    dest: Seq<char>,
    newd: Seq<String>,
)
    requires
        ds == dir_set_of(dirs),
        forall|rest: Seq<char>| #![trigger scanned_src_dir(dirs, dirs.len() as int, src, rest)]
            scanned_src_dir(dirs, dirs.len() as int, src, rest) ==> (exists|j: int|
                0 <= j < newd.len() && newd[j]@ == joined(dest, rest)),
    ensures
        forall|rest: Seq<char>| #![trigger ds.contains(joined(src, rest))]
            ds.contains(joined(src, rest)) ==> (exists|j: int|
                0 <= j < newd.len() && newd[j]@ == joined(dest, rest)),
{
    assert forall|rest: Seq<char>| #![trigger ds.contains(joined(src, rest))]
        ds.contains(joined(src, rest)) implies (exists|j: int|
        0 <= j < newd.len() && newd[j]@ == joined(dest, rest)) by {
        lemma_dir_set_contains(dirs, joined(src, rest));
        assert(scanned_src_dir(dirs, dirs.len() as int, src, rest));
    }
}

/// Collects the directories that copying everything below `src` to the
/// same place below `dest` would create: one for each directory below
/// `src`. Besides the copies it hands back, for the proof, the
/// remainder below `src` that each copy came from.
#[verifier::spinoff_prover]
#[verifier::rlimit(100)]
fn collect_dir_copies(fs: &FsState, src: &str, dest: &str) -> (r: (
    Vec<String>,
    Ghost<Seq<Seq<char>>>,
))
    requires
        fs.wf(),
    ensures
        r.1@.len() == r.0@.len(),
        forall|j: int| #![trigger r.0@[j]]
            0 <= j < r.0@.len() ==> dir_copy_entry(fs.dir_set(), src@, dest@, r.0@[j], r.1@[j]),
        forall|rest: Seq<char>| #![trigger fs.dir_set().contains(joined(src@, rest))]
            fs.dir_set().contains(joined(src@, rest)) ==> (exists|j: int|
                0 <= j < r.0@.len() && r.0@[j]@ == joined(dest@, rest)),
{
    let mut new_dirs: Vec<String> = Vec::new();
    let ghost mut rests: Seq<Seq<char>> = Seq::empty();
    let mut d: usize = 0;
    while d < fs.dirs.len()
        invariant
            0 <= d <= fs.dirs@.len(),
            rests.len() == new_dirs@.len(),
            forall|j: int| #![trigger new_dirs@[j]]
                0 <= j < new_dirs@.len() ==> good_dir_copy(
                    fs.dirs@,
                    d as int,
                    src@,
                    dest@,
                    new_dirs@[j],
                    rests[j],
                ),
            forall|rest: Seq<char>| #![trigger scanned_src_dir(fs.dirs@, d as int, src@, rest)]
                scanned_src_dir(fs.dirs@, d as int, src@, rest) ==> (exists|j: int|
                    0 <= j < new_dirs@.len() && new_dirs@[j]@ == joined(dest@, rest)),
        decreases fs.dirs@.len() - d,
    {
        let ghost gd = d as int;
        let ghost prevd = new_dirs@;
        let ghost prev_rests = rests;
        match strip_dir(fs.dirs[d].as_str(), src) {
            Some(rest) => {
                let dest_path = crate::strings::path_join(dest, rest.as_str());
                new_dirs.push(dest_path);
                proof {
                    rests = rests.push(rest@);
                    lemma_collect_dirs_push(
                        fs.dirs@,
                        gd,
                        src@,
                        dest@,
                        prevd,
                        prev_rests,
                        new_dirs@,
                        rests,
                        rest@,
                    );
                }
            },
            None => {
                proof {
                    lemma_collect_dirs_keep(fs.dirs@, gd, src@, dest@, new_dirs@, rests);
                }
            },
        }
        d = d + 1;
    }
    proof {
        lemma_collect_dirs_done(fs.dirs@, fs.dir_set(), src@, dest@, new_dirs@, rests);
        lemma_collect_dirs_done_contains(fs.dirs@, fs.dir_set(), src@, dest@, new_dirs@);
    }
    (new_dirs, Ghost(rests))
}

/// Copies everything below `src` to the same place below `dest`,
/// creating `dest` and the copied directories, and never replacing a
/// file already present.
#[verifier::rlimit(100)]
#[verifier::spinoff_prover]
pub fn copy_dir(fs: &mut FsState, src: &str, dest: &str)
    requires
        old(fs).wf(),
    ensures
        final(fs).wf(),
        // never overwrites: every file already present keeps its text
        forall|p: Seq<char>| #![trigger old(fs).file_map().contains_key(p)]
            old(fs).file_map().contains_key(p) ==> final(fs).file_map().contains_key(p) && final(fs).file_map()[p] == old(fs).file_map()[p],
        // the whole subtree arrives
        forall|rest: Seq<char>| #![trigger old(fs).file_map().contains_key(joined(src@, rest))]
            old(fs).file_map().contains_key(joined(src@, rest)) ==> final(fs).file_map().contains_key(joined(dest@, rest)),
        forall|rest: Seq<char>| #![trigger final(fs).file_map()[joined(dest@, rest)]]
            old(fs).file_map().contains_key(joined(src@, rest)) && !old(fs).file_map().contains_key(
                joined(dest@, rest),
            ) ==> final(fs).file_map()[joined(dest@, rest)] == old(fs).file_map()[joined(src@, rest)],
        // and no other file appears
        forall|p: Seq<char>| #![trigger final(fs).file_map().contains_key(p)]
            final(fs).file_map().contains_key(p) ==> old(fs).file_map().contains_key(p) || (exists|
                rest: Seq<char>,
            | p == joined(dest@, rest) && old(fs).file_map().contains_key(joined(src@, rest))),
        // directories: those already present stay, `dest` appears, and
        // the copies of `src`'s subtree appear
        forall|q: Seq<char>| #![trigger old(fs).dir_set().contains(q)]
            old(fs).dir_set().contains(q) ==> final(fs).dir_set().contains(q),
        final(fs).dir_set().contains(dest@),
        forall|rest: Seq<char>| #![trigger old(fs).dir_set().contains(joined(src@, rest))]
            old(fs).dir_set().contains(joined(src@, rest)) ==> final(fs).dir_set().contains(
                joined(dest@, rest),
            ),
        forall|q: Seq<char>| #![trigger final(fs).dir_set().contains(q)]
            final(fs).dir_set().contains(q) ==> old(fs).dir_set().contains(q) || q == dest@ || (
            exists|rest: Seq<char>|
                q == joined(dest@, rest) && old(fs).dir_set().contains(joined(src@, rest))),
{
    let (new_files, collected) = collect_file_copies(fs, src, dest);
    let ghost crests = collected@;
    let (new_dirs, dir_collected) = collect_dir_copies(fs, src, dest);
    let ghost drests = dir_collected@;
    // Apply the file copies.
    let mut j: usize = 0;
    while j < new_files.len()
        invariant
            fs.wf(),
            0 <= j <= new_files@.len(),
            fs.dir_set() == old(fs).dir_set(),
            crests.len() == new_files@.len(),
            forall|v: int| #![trigger new_files@[v]]
                0 <= v < new_files@.len() ==> good_file_copy(
                    old(fs).files@,
                    old(fs).file_map(),
                    old(fs).files@.len() as int,
                    src@,
                    dest@,
                    new_files@[v],
                    crests[v],
                ),
            forall|v1: int, v2: int|
                0 <= v1 < v2 < new_files@.len() ==> new_files@[v1].path@ != new_files@[v2].path@,
            forall|p: Seq<char>| #![trigger old(fs).file_map().contains_key(p)]
                old(fs).file_map().contains_key(p) ==> fs.file_map().contains_key(p)
                    && fs.file_map()[p] == old(fs).file_map()[p],
            forall|p: Seq<char>| #![trigger fs.file_map().contains_key(p)]
                fs.file_map().contains_key(p) ==> old(fs).file_map().contains_key(p) || (exists|
                    v: int,
                | 0 <= v < j && new_files@[v].path@ == p),
            forall|v: int| #![trigger new_files@[v]]
                0 <= v < j ==> fs.file_map().contains_key(new_files@[v].path@) && fs.file_map()[new_files@[v].path@] == new_files@[v].contents@,
        decreases new_files@.len() - j,
    {
        let ghost gj = j as int;
        let ghost pre = fs.file_map();
        fs.write_file(new_files[j].path.as_str(), new_files[j].contents.as_str());
        proof {
            reveal(good_file_copy);
            assert(fs.file_map() == pre.insert(new_files@[gj].path@, new_files@[gj].contents@));
            assert(good_file_copy(
                old(fs).files@,
                old(fs).file_map(),
                old(fs).files@.len() as int,
                src@,
                dest@,
                new_files@[gj],
                crests[gj],
            ));
            assert(!old(fs).file_map().contains_key(new_files@[gj].path@));
            assert forall|p: Seq<char>| #![trigger old(fs).file_map().contains_key(p)]
                old(fs).file_map().contains_key(p) implies fs.file_map().contains_key(p)
                && fs.file_map()[p] == old(fs).file_map()[p] by {
                assert(pre.contains_key(p));
                assert(p != new_files@[gj].path@);
            }
            assert forall|v: int| #![trigger new_files@[v]] 0 <= v < gj + 1 implies fs.file_map().contains_key(new_files@[v].path@)
                && fs.file_map()[new_files@[v].path@] == new_files@[v].contents@ by {
                if v < gj {
                    assert(new_files@[v].path@ != new_files@[gj].path@);
                }
            }
        }
        j = j + 1;
    }
    let ghost mid = fs.file_map();
    // Create `dest` and the collected directories.
    fs.mkdir(dest);
    let mut e: usize = 0;
    while e < new_dirs.len()
        invariant
            fs.wf(),
            0 <= e <= new_dirs@.len(),
            fs.file_map() == mid,
            drests.len() == new_dirs@.len(),
            forall|v: int| #![trigger new_dirs@[v]]
                0 <= v < new_dirs@.len() ==> dir_copy_entry(
                    old(fs).dir_set(),
                    src@,
                    dest@,
                    new_dirs@[v],
                    drests[v],
                ),
            forall|q: Seq<char>| #![trigger old(fs).dir_set().contains(q)]
                old(fs).dir_set().contains(q) ==> fs.dir_set().contains(q),
            fs.dir_set().contains(dest@),
            forall|v: int| 0 <= v < e ==> fs.dir_set().contains(new_dirs@[v]@),
            forall|q: Seq<char>| #![trigger fs.dir_set().contains(q)]
                fs.dir_set().contains(q) ==> old(fs).dir_set().contains(q) || q == dest@ || (
                exists|v: int| 0 <= v < e && new_dirs@[v]@ == q),
        decreases new_dirs@.len() - e,
    {
        let ghost ge = e as int;
        let ghost dpre = fs.dir_set();
        fs.mkdir(new_dirs[e].as_str());
        proof {
            assert(fs.dir_set() == dpre.insert(new_dirs@[ge]@));
            assert forall|q: Seq<char>| #![trigger fs.dir_set().contains(q)]
                fs.dir_set().contains(q) implies old(fs).dir_set().contains(q) || q == dest@ || (
            exists|v: int| 0 <= v < ge + 1 && new_dirs@[v]@ == q) by {
                if q == new_dirs@[ge]@ {
                    assert(0 <= ge < ge + 1 && new_dirs@[ge]@ == q);
                }
            }
        }
        e = e + 1;
    }
    proof {
        assert forall|p: Seq<char>| #![trigger fs.file_map().contains_key(p)]
            fs.file_map().contains_key(p) implies old(fs).file_map().contains_key(p) || (exists|
            rest: Seq<char>,
        | p == joined(dest@, rest) && old(fs).file_map().contains_key(joined(src@, rest))) by {
            if !old(fs).file_map().contains_key(p) {
                reveal(good_file_copy);
                let v = choose|v: int|
                    0 <= v < new_files@.len() && new_files@[v].path@ == p;
                assert(good_file_copy(
                    old(fs).files@,
                    old(fs).file_map(),
                    old(fs).files@.len() as int,
                    src@,
                    dest@,
                    new_files@[v],
                    crests[v],
                ));
                assert(p == joined(dest@, crests[v]) && old(fs).file_map().contains_key(
                    joined(src@, crests[v]),
                ));
            }
        }
        assert forall|rest: Seq<char>| #![trigger old(fs).file_map().contains_key(joined(src@, rest))]
            old(fs).file_map().contains_key(joined(src@, rest)) && !old(fs).file_map().contains_key(
                joined(dest@, rest),
            ) implies fs.file_map().contains_key(joined(dest@, rest)) && fs.file_map()[joined(
            dest@,
            rest,
        )] == old(fs).file_map()[joined(src@, rest)] by {
            reveal(good_file_copy);
            let v = choose|v: int|
                0 <= v < new_files@.len() && new_files@[v].path@ == joined(dest@, rest);
            assert(good_file_copy(
                old(fs).files@,
                old(fs).file_map(),
                old(fs).files@.len() as int,
                src@,
                dest@,
                new_files@[v],
                crests[v],
            ));
            crate::strings::lemma_joined_cancel(dest@, crests[v], rest);
        }
        assert forall|rest: Seq<char>| #![trigger old(fs).dir_set().contains(joined(src@, rest))]
            old(fs).dir_set().contains(joined(src@, rest)) implies fs.dir_set().contains(
            joined(dest@, rest),
        ) by {
            let v = choose|v: int| 0 <= v < new_dirs@.len() && new_dirs@[v]@ == joined(dest@, rest);
            assert(fs.dir_set().contains(new_dirs@[v]@));
        }
        assert forall|q: Seq<char>| #![trigger fs.dir_set().contains(q)]
            fs.dir_set().contains(q) implies old(fs).dir_set().contains(q) || q == dest@ || (
        exists|rest: Seq<char>|
            q == joined(dest@, rest) && old(fs).dir_set().contains(joined(src@, rest))) by {
            if !old(fs).dir_set().contains(q) && q != dest@ {
                let v = choose|v: int| 0 <= v < new_dirs@.len() && new_dirs@[v]@ == q;
                reveal(dir_copy_entry);
                assert(dir_copy_entry(old(fs).dir_set(), src@, dest@, new_dirs@[v], drests[v]));
                assert(q == joined(dest@, drests[v]) && old(fs).dir_set().contains(
                    joined(src@, drests[v]),
                ));
            }
        }
    }
}


/// Copies each immediate subdirectory of `src`, with its whole subtree,
/// to the same name below `dest`, never replacing a file already
/// present. A missing `src` makes the whole call a no-op: staging
/// degrades rather than failing.
#[verifier::loop_isolation(false)]
#[verifier::spinoff_prover]
#[verifier::rlimit(100)]
pub fn copy_subdirs(fs: &mut FsState, src: &str, dest: &str)
    requires
        old(fs).wf(),
    ensures
        final(fs).wf(),
        // never overwrites: every file already present keeps its text
        forall|p: Seq<char>| #![trigger old(fs).file_map().contains_key(p)]
            old(fs).file_map().contains_key(p) ==> final(fs).file_map().contains_key(p) && final(fs).file_map()[p] == old(fs).file_map()[p],
        // every file below a subdirectory of `src` arrives below the same
        // name under `dest`, with the source text where the destination
        // held no file yet
        forall|n: Seq<char>, rest: Seq<char>|
            #![trigger old(fs).file_map().contains_key(joined(joined(src@, n), rest))]
            old(fs).dir_set().contains(src@) && is_subdir_name(*old(fs), src@, n) && old(fs).file_map().contains_key(
                joined(joined(src@, n), rest),
            ) ==> final(fs).file_map().contains_key(joined(joined(dest@, n), rest)) && (!old(fs).file_map().contains_key(joined(joined(dest@, n), rest)) ==> final(fs).file_map()[joined(
                joined(dest@, n),
                rest,
            )] == old(fs).file_map()[joined(joined(src@, n), rest)]),
        // writes only below `dest/<subdir of src>`
        forall|p: Seq<char>| #![trigger final(fs).file_map().contains_key(p)]
            final(fs).file_map().contains_key(p) ==> old(fs).file_map().contains_key(p) || (exists|
                n: Seq<char>, rest: Seq<char>,
            | is_subdir_name(*old(fs), src@, n) && p == joined(joined(dest@, n), rest)),
        // directories already present stay present; each subdirectory of
        // `src` is created under `dest` together with its subtree's
        // directories
        forall|q: Seq<char>| #![trigger old(fs).dir_set().contains(q)]
            old(fs).dir_set().contains(q) ==> final(fs).dir_set().contains(q),
        forall|n: Seq<char>| #![trigger is_subdir_name(*old(fs), src@, n)]
            old(fs).dir_set().contains(src@) && is_subdir_name(*old(fs), src@, n) ==> final(fs).dir_set().contains(joined(dest@, n)),
        forall|n: Seq<char>, rest: Seq<char>|
            #![trigger old(fs).dir_set().contains(joined(joined(src@, n), rest))]
            old(fs).dir_set().contains(src@) && is_subdir_name(*old(fs), src@, n) && old(fs).dir_set().contains(
                joined(joined(src@, n), rest),
            ) ==> final(fs).dir_set().contains(joined(joined(dest@, n), rest)),
        // a missing source directory makes this a no-op
        !old(fs).dir_set().contains(src@) ==> *final(fs) == *old(fs),
{
    let names = match subdir_names(fs, src) {
        Ok(names) => names,
        Err(_) => {
            return ;
        },
    };
    let mut w: usize = 0;
    while w < names.len()
        invariant
            fs.wf(),
            0 <= w <= names.deep_view().len(),
            forall|p: Seq<char>| #![trigger old(fs).file_map().contains_key(p)]
                old(fs).file_map().contains_key(p) ==> fs.file_map().contains_key(p)
                    && fs.file_map()[p] == old(fs).file_map()[p],
            forall|v: int, rest: Seq<char>|
                #![trigger old(fs).file_map().contains_key(joined(joined(src@, names.deep_view()[v]), rest))]
                0 <= v < w && old(fs).file_map().contains_key(
                    joined(joined(src@, names.deep_view()[v]), rest),
                ) ==> fs.file_map().contains_key(joined(joined(dest@, names.deep_view()[v]), rest))
                    && (!old(fs).file_map().contains_key(
                    joined(joined(dest@, names.deep_view()[v]), rest),
                ) ==> fs.file_map()[joined(joined(dest@, names.deep_view()[v]), rest)] == old(fs).file_map()[joined(joined(src@, names.deep_view()[v]), rest)]),
            forall|p: Seq<char>| #![trigger fs.file_map().contains_key(p)]
                fs.file_map().contains_key(p) ==> old(fs).file_map().contains_key(p) || (exists|
                    v: int, rest: Seq<char>,
                | 0 <= v < w && p == joined(joined(dest@, names.deep_view()[v]), rest)),
            forall|q: Seq<char>| #![trigger old(fs).dir_set().contains(q)]
                old(fs).dir_set().contains(q) ==> fs.dir_set().contains(q),
            forall|v: int| 0 <= v < w ==> fs.dir_set().contains(
                joined(dest@, names.deep_view()[v]),
            ),
            forall|v: int, rest: Seq<char>|
                #![trigger old(fs).dir_set().contains(joined(joined(src@, names.deep_view()[v]), rest))]
                0 <= v < w && old(fs).dir_set().contains(
                    joined(joined(src@, names.deep_view()[v]), rest),
                ) ==> fs.dir_set().contains(joined(joined(dest@, names.deep_view()[v]), rest)),
        decreases names.deep_view().len() - w,
    {
        let name = names[w].as_str();
        proof {
            assert(name@ == names.deep_view()[w as int]);
            assert(names.deep_view().contains(names.deep_view()[w as int]));
        }
        let src_sub = crate::strings::path_join(src, name);
        let dest_sub = crate::strings::path_join(dest, name);
        let ghost pre = *fs;
        copy_dir(fs, src_sub.as_str(), dest_sub.as_str());
        proof {
            let gw = w as int;
            // the freshly processed subdirectory: everything below it arrived
            assert forall|v: int, rest: Seq<char>|
                #![trigger old(fs).file_map().contains_key(joined(joined(src@, names.deep_view()[v]), rest))]
                0 <= v < gw + 1 && old(fs).file_map().contains_key(
                    joined(joined(src@, names.deep_view()[v]), rest),
                ) implies fs.file_map().contains_key(
                joined(joined(dest@, names.deep_view()[v]), rest),
            ) && (!old(fs).file_map().contains_key(
                joined(joined(dest@, names.deep_view()[v]), rest),
            ) ==> fs.file_map()[joined(joined(dest@, names.deep_view()[v]), rest)] == old(fs).file_map()[joined(joined(src@, names.deep_view()[v]), rest)]) by {
                let srckey = joined(joined(src@, names.deep_view()[v]), rest);
                let destkey = joined(joined(dest@, names.deep_view()[v]), rest);
                if v < gw {
                    assert(pre.file_map().contains_key(srckey));
                } else {
                    assert(srckey == joined(src_sub@, rest));
                    assert(destkey == joined(dest_sub@, rest));
                    assert(pre.file_map().contains_key(joined(src_sub@, rest)));
                    assert(pre.file_map()[joined(src_sub@, rest)] == old(fs).file_map()[srckey]);
                    if !old(fs).file_map().contains_key(destkey) {
                        if pre.file_map().contains_key(destkey) {
                            let (v2, rest2) = choose|v2: int, rest2: Seq<char>|
                                0 <= v2 < gw && destkey == joined(
                                    joined(dest@, names.deep_view()[v2]),
                                    rest2,
                                );
                            assert(names.deep_view().contains(names.deep_view()[v2]));
                            crate::strings::lemma_joined_nested_inj(
                                dest@,
                                names.deep_view()[gw],
                                rest,
                                names.deep_view()[v2],
                                rest2,
                            );
                            assert(names.deep_view()[v2] == names.deep_view()[gw]);
                            assert(false);
                        }
                        assert(fs.file_map()[joined(dest_sub@, rest)] == pre.file_map()[joined(
                            src_sub@,
                            rest,
                        )]);
                    }
                }
            }
            // writes stay below the processed subdirectories
            assert forall|p: Seq<char>| #![trigger fs.file_map().contains_key(p)]
                fs.file_map().contains_key(p) implies old(fs).file_map().contains_key(p) || (
            exists|v: int, rest: Seq<char>|
                0 <= v < gw + 1 && p == joined(joined(dest@, names.deep_view()[v]), rest)) by {
                if !old(fs).file_map().contains_key(p) {
                    if pre.file_map().contains_key(p) {
                        let (v2, rest2) = choose|v2: int, rest2: Seq<char>|
                            0 <= v2 < gw && p == joined(
                                joined(dest@, names.deep_view()[v2]),
                                rest2,
                            );
                        assert(0 <= v2 < gw + 1 && p == joined(
                            joined(dest@, names.deep_view()[v2]),
                            rest2,
                        ));
                    } else {
                        let rest = choose|rest: Seq<char>|
                            p == joined(dest_sub@, rest) && pre.file_map().contains_key(
                                joined(src_sub@, rest),
                            );
                        assert(0 <= gw < gw + 1 && p == joined(
                            joined(dest@, names.deep_view()[gw]),
                            rest,
                        ));
                    }
                }
            }
            // the subtree's directories arrived as well
            assert forall|v: int, rest: Seq<char>|
                #![trigger old(fs).dir_set().contains(joined(joined(src@, names.deep_view()[v]), rest))]
                0 <= v < gw + 1 && old(fs).dir_set().contains(
                    joined(joined(src@, names.deep_view()[v]), rest),
                ) implies fs.dir_set().contains(
                joined(joined(dest@, names.deep_view()[v]), rest),
            ) by {
                if v == gw {
                    assert(pre.dir_set().contains(joined(src_sub@, rest)));
                    assert(fs.dir_set().contains(joined(dest_sub@, rest)));
                }
            }
        }
        w = w + 1;
    }
    proof {
        let dv = names.deep_view();
        assert forall|n: Seq<char>, rest: Seq<char>|
            #![trigger old(fs).file_map().contains_key(joined(joined(src@, n), rest))]
            is_subdir_name(*old(fs), src@, n) && old(fs).file_map().contains_key(
                joined(joined(src@, n), rest),
            ) implies fs.file_map().contains_key(joined(joined(dest@, n), rest)) && (!old(fs).file_map().contains_key(joined(joined(dest@, n), rest)) ==> fs.file_map()[joined(
            joined(dest@, n),
            rest,
        )] == old(fs).file_map()[joined(joined(src@, n), rest)]) by {
            assert(dv.contains(n));
            let v = choose|v: int| 0 <= v < dv.len() && dv[v] == n;
        }
        assert forall|p: Seq<char>| #![trigger fs.file_map().contains_key(p)]
            fs.file_map().contains_key(p) implies old(fs).file_map().contains_key(p) || (exists|
            n: Seq<char>, rest: Seq<char>,
        | is_subdir_name(*old(fs), src@, n) && p == joined(joined(dest@, n), rest)) by {
            if !old(fs).file_map().contains_key(p) {
                let (v, rest) = choose|v: int, rest: Seq<char>|
                    0 <= v < names.deep_view().len() && p == joined(
                        joined(dest@, names.deep_view()[v]),
                        rest,
                    );
                assert(dv.contains(dv[v]));
                assert(is_subdir_name(*old(fs), src@, dv[v]) && p == joined(
                    joined(dest@, dv[v]),
                    rest,
                ));
            }
        }
        assert forall|n: Seq<char>| #![trigger is_subdir_name(*old(fs), src@, n)]
            is_subdir_name(*old(fs), src@, n) implies fs.dir_set().contains(
            joined(dest@, n),
        ) by {
            assert(dv.contains(n));
            let v = choose|v: int| 0 <= v < dv.len() && dv[v] == n;
            assert(fs.dir_set().contains(joined(dest@, dv[v])));
        }
        assert forall|n: Seq<char>, rest: Seq<char>|
            #![trigger old(fs).dir_set().contains(joined(joined(src@, n), rest))]
            is_subdir_name(*old(fs), src@, n) && old(fs).dir_set().contains(
                joined(joined(src@, n), rest),
            ) implies fs.dir_set().contains(joined(joined(dest@, n), rest)) by {
            assert(dv.contains(n));
            let v = choose|v: int| 0 <= v < dv.len() && dv[v] == n;
        }
    }
}

} // verus!
